use richeatta::known::refine_search;
use richeatta::{decode, encode, ByteOrder, Error, Process, RegionBytes};

const BASE: usize = 0x5000;

fn process() -> Process {
    Process { pid: 4242, order: ByteOrder::Little }
}

fn read_of(memory: &[u8]) -> Vec<RegionBytes> {
    vec![RegionBytes { base_address: BASE, bytes: memory.to_vec() }]
}

fn put_i32(memory: &mut [u8], offset: usize, v: i32) {
    memory[offset..offset + 4].copy_from_slice(&v.to_le_bytes());
}

fn apply(memory: &mut [u8], address: usize, bytes: &[u8]) {
    let off = address - BASE;
    memory[off..off + bytes.len()].copy_from_slice(bytes);
}

#[test]
fn test_modify_lab_rat_memory() {
    let mut memory = vec![0u8; 64];
    put_i32(&mut memory, 16, 12345);
    let p = process();
    let mut search = p.search_known_value(12345i32, &read_of(&memory));
    assert_eq!(search.count(), 1);
    assert_eq!(search.addresses(), &[BASE + 16]);

    put_i32(&mut memory, 16, 54321);
    search.refine(54321, &read_of(&memory));
    assert_eq!(search.count(), 1);

    let w = search.modify(424242).unwrap();
    assert_eq!(w.address, BASE + 16);
    assert_eq!(w.bytes, 424242i32.to_le_bytes().to_vec());
    apply(&mut memory, w.address, &w.bytes);
    assert_eq!(decode::<i32>(&memory[16..20], ByteOrder::Little), Ok(424242));
}

#[test]
fn known_value_search_finds_only_aligned_slots() {
    let mut memory = vec![0u8; 32];
    put_i32(&mut memory, 6, 777);
    put_i32(&mut memory, 24, 777);
    let search = process().search_known_value(777i32, &read_of(&memory));
    assert_eq!(search.addresses(), &[BASE + 24]);
}

#[test]
fn known_value_search_over_several_reads_keeps_read_order() {
    let mut a = vec![0u8; 8];
    let mut b = vec![0u8; 8];
    a[3] = 9;
    b[0] = 9;
    b[7] = 9;
    let reads = vec![
        RegionBytes { base_address: 0x9000, bytes: a },
        RegionBytes { base_address: 0x1000, bytes: b },
    ];
    let search = process().search_known_value(9u8, &reads);
    assert_eq!(search.addresses(), &[0x9003, 0x1000, 0x1007]);
}

#[test]
fn refine_twice_keeps_count() {
    let mut memory = vec![0u8; 40];
    for off in [0usize, 8, 20, 36] {
        put_i32(&mut memory, off, 5);
    }
    let mut search = process().search_known_value(5i32, &read_of(&memory));
    assert_eq!(search.count(), 4);
    put_i32(&mut memory, 8, 6);
    put_i32(&mut memory, 36, 6);
    search.refine(6, &read_of(&memory));
    assert_eq!(search.count(), 2);
    let first: Vec<usize> = search.addresses().to_vec();
    search.refine(6, &read_of(&memory));
    assert_eq!(search.count(), 2);
    assert_eq!(search.addresses(), first.as_slice());
}

#[test]
fn refine_never_grows() {
    let mut memory = vec![0u8; 16];
    memory[2] = 1;
    let mut search = process().search_known_value(1u8, &read_of(&memory));
    let before = search.count();
    memory = vec![1u8; 16];
    search.refine(1, &read_of(&memory));
    assert!(search.count() <= before);
    assert_eq!(search.addresses(), &[BASE + 2]);
}

#[test]
fn refine_drops_candidate_whose_region_is_gone() {
    let mut memory = vec![0u8; 16];
    memory[4] = 3;
    let mut search = process().search_known_value(3u8, &read_of(&memory));
    assert_eq!(search.count(), 1);
    search.refine(3, &[]);
    assert_eq!(search.count(), 0);
}

#[test]
fn modify_without_candidate_is_no_candidate() {
    let memory = vec![0u8; 16];
    let search = process().search_known_value(99i32, &read_of(&memory));
    assert_eq!(search.count(), 0);
    assert!(matches!(search.modify(1), Err(Error::NoCandidate)));

    let unknown = process().search_unknown_value::<i32>(&[]);
    assert_eq!(unknown.count(), 0);
    assert!(matches!(unknown.modify(1), Err(Error::NoCandidate)));
    assert!(matches!(unknown.get_current_value(), Err(Error::NoCandidate)));
}

#[test]
fn cross_width_refine_stays_in_bounds() {
    let mut memory = vec![0u8; 16];
    memory[8] = 0xAB;
    memory[15] = 0xAB;
    let search = process().search_known_value(0xABu8, &read_of(&memory));
    assert_eq!(search.addresses(), &[BASE + 8, BASE + 15]);
    let kept = refine_search::<u32>(search.addresses(), 0xAB, &read_of(&memory), ByteOrder::Little);
    assert_eq!(kept, vec![BASE + 8]);
    let shorter = vec![RegionBytes { base_address: BASE, bytes: memory[..10].to_vec() }];
    let kept = refine_search::<u32>(search.addresses(), 0xAB, &shorter, ByteOrder::Little);
    assert!(kept.is_empty());
}

#[test]
fn unknown_value_search_counts_every_slot() {
    let memory = vec![7u8; 10];
    let search = process().search_unknown_value::<u16>(&read_of(&memory));
    assert_eq!(search.count(), 5);
    assert_eq!(search.get_current_value(), Ok(0x0707));
    assert_eq!(search.ranges_to_read(), vec![(BASE, 10)]);
}

#[test]
fn unknown_value_predicates_split_the_baseline() {
    let before: Vec<u8> = vec![5, 5, 5, 5, 5, 5];
    let after: Vec<u8> = vec![6, 4, 5, 9, 5, 0];
    let p = process();
    let mut up = p.search_unknown_value::<u8>(&read_of(&before));
    let mut down = p.search_unknown_value::<u8>(&read_of(&before));
    let mut same = p.search_unknown_value::<u8>(&read_of(&before));
    let mut changed = p.search_unknown_value::<u8>(&read_of(&before));
    up.value_increased(&read_of(&after));
    down.value_decreased(&read_of(&after));
    same.value_didnt_change(&read_of(&after));
    changed.value_changed(&read_of(&after));
    assert_eq!(up.count(), 2);
    assert_eq!(down.count(), 2);
    assert_eq!(same.count(), 2);
    assert_eq!(up.count() + down.count() + same.count(), 6);
    assert_eq!(changed.count(), up.count() + down.count());
    assert_eq!(up.ranges_to_read(), vec![(BASE, 1), (BASE + 3, 1)]);
    assert_eq!(same.ranges_to_read(), vec![(BASE + 2, 1), (BASE + 4, 1)]);
    assert_eq!(changed.ranges_to_read(), vec![(BASE, 2), (BASE + 3, 1), (BASE + 5, 1)]);
    assert_eq!(up.get_current_value(), Ok(6));
}

#[test]
fn unknown_value_baseline_moves_forward() {
    let p = process();
    let mut search = p.search_unknown_value::<u8>(&read_of(&[1, 1]));
    search.value_increased(&read_of(&[2, 0]));
    assert_eq!(search.count(), 1);
    search.value_didnt_change(&read_of(&[2, 0]));
    assert_eq!(search.count(), 1);
    search.value_increased(&read_of(&[2, 0]));
    assert_eq!(search.count(), 0);
}

struct Victim {
    memory: Vec<u8>,
    slot: usize,
    clock: usize,
}

impl Victim {
    fn new() -> Victim {
        let mut memory: Vec<u8> = (0..48u8).map(|i| i.wrapping_mul(7)).collect();
        memory[13] = 10;
        Victim { memory, slot: 13, clock: 40 }
    }

    fn tick(&mut self) {
        self.memory[self.clock] = self.memory[self.clock].wrapping_add(1);
    }

    fn increase(&mut self) {
        self.memory[self.slot] = (self.memory[self.slot] as i8 + 1) as u8;
        self.tick();
    }

    fn decrease(&mut self) {
        self.memory[self.slot] = (self.memory[self.slot] as i8 - 1) as u8;
        self.tick();
    }

    fn reads(&self) -> Vec<RegionBytes> {
        read_of(&self.memory)
    }
}

#[test]
fn test_unknown_value() {
    let mut v = Victim::new();
    let mut search = process().search_unknown_value::<i8>(&v.reads());
    assert_eq!(search.count(), 48);

    v.increase();
    search.value_increased(&v.reads());
    v.decrease();
    search.value_decreased(&v.reads());
    v.increase();
    v.decrease();
    search.value_didnt_change(&v.reads());
    for _ in 0..4 {
        v.increase();
    }
    search.value_increased(&v.reads());
    v.decrease();
    search.value_changed(&v.reads());
    v.increase();
    search.value_changed(&v.reads());
    for _ in 0..4 {
        v.decrease();
    }
    search.value_decreased(&v.reads());
    v.decrease();
    v.increase();
    search.value_didnt_change(&v.reads());
    v.decrease();
    v.decrease();
    search.value_decreased(&v.reads());
    v.increase();
    v.increase();
    search.value_increased(&v.reads());
    v.increase();
    v.increase();
    search.value_increased(&v.reads());

    assert_eq!(search.count(), 1);
    assert_eq!(search.get_current_value(), Ok(12));
    let w = search.modify(-42i8).unwrap();
    assert_eq!(w.address, BASE + v.slot);
    assert_eq!(w.bytes, encode(-42i8, ByteOrder::Little));
    apply(&mut v.memory, w.address, &w.bytes);
    assert_eq!(v.memory[v.slot] as i8, -42);
}

#[test]
fn new_process_uses_native_order() {
    let native = if 1u16.to_ne_bytes()[0] == 1 { ByteOrder::Little } else { ByteOrder::Big };
    let p = Process::new(7);
    assert_eq!(p.pid, 7);
    assert_eq!(p.order, native);
}
