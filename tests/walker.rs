use class_walker::memory::ForeignMemory;
use class_walker::render::render;
use class_walker::walker::{TableState, MAX_DEPTH};

const BASE: u64 = 0x1000;

fn put_u64(buf: &mut Vec<u8>, addr: u64, v: u64) {
    let at = (addr - BASE) as usize;
    buf[at..at + 8].copy_from_slice(&v.to_le_bytes());
}

fn put_i32(buf: &mut Vec<u8>, addr: u64, v: i32) {
    let at = (addr - BASE) as usize;
    buf[at..at + 4].copy_from_slice(&v.to_le_bytes());
}

fn put_str(buf: &mut Vec<u8>, addr: u64, s: &str) {
    let at = (addr - BASE) as usize;
    buf[at..at + s.len()].copy_from_slice(s.as_bytes());
    buf[at + s.len()] = 0;
}

/// A descriptor at `at`: name, table and next pointers.
fn put_class(buf: &mut Vec<u8>, at: u64, name: u64, table: u64, next: u64) {
    put_u64(buf, at + 16, name);
    put_u64(buf, at + 24, table);
    put_u64(buf, at + 32, next);
}

/// A table at `at`: property array, count and name.
fn put_table(buf: &mut Vec<u8>, at: u64, props: u64, count: i32, name: u64) {
    put_u64(buf, at, props);
    put_i32(buf, at + 8, count);
    put_u64(buf, at + 24, name);
}

/// A property record at `at`: name, offset and child table.
fn put_prop(buf: &mut Vec<u8>, at: u64, name: u64, offset: i32, child: u64) {
    put_u64(buf, at, name);
    put_u64(buf, at + 64, child);
    put_i32(buf, at + 72, offset);
}

fn memory(buf: Vec<u8>) -> ForeignMemory {
    ForeignMemory::new(BASE, buf).unwrap()
}

#[test]
fn reads_words_integers_and_strings() {
    let mut buf = vec![0u8; 0x40];
    put_u64(&mut buf, BASE + 8, 0x0102030405060708);
    put_i32(&mut buf, BASE + 16, -2);
    put_str(&mut buf, BASE + 24, "name");
    buf[0x3F] = b'x';
    let mem = memory(buf);
    assert_eq!(mem.read_word(BASE + 8), Some(0x0102030405060708));
    assert_eq!(mem.read_int(BASE + 16), Some(-2));
    assert_eq!(mem.read_cstr(BASE + 24), b"name".to_vec());
    assert_eq!(mem.read_cstr(BASE + 0x3F), Vec::<u8>::new());
    assert_eq!(mem.read_cstr(0), Vec::<u8>::new());
    assert_eq!(mem.read_word(BASE + 0x39), None);
    assert_eq!(mem.read_word(BASE - 1), None);
    assert!(ForeignMemory::new(u64::MAX - 2, vec![0u8; 4]).is_none());
}

#[test]
fn resolves_root_through_displacement() {
    let mut buf = vec![0u8; 0x200];
    let matched = BASE + 0x20;
    let at = (matched + 4 - BASE) as usize;
    buf[at..at + 4].copy_from_slice(&0x10u32.to_le_bytes());
    put_u64(&mut buf, matched + 0x10 + 8, BASE + 0x100);
    put_u64(&mut buf, BASE + 0x100, BASE + 0x180);
    let mem = memory(buf);
    assert_eq!(mem.resolve_root(matched, 4, 8), Some(BASE + 0x180));
    assert_eq!(mem.resolve_root(BASE + 0x1FE, 4, 8), None);
}

#[test]
fn three_node_list_without_tables() {
    let mut buf = vec![0u8; 0x200];
    put_str(&mut buf, BASE + 0x100, "A");
    put_str(&mut buf, BASE + 0x110, "B");
    put_str(&mut buf, BASE + 0x120, "C");
    put_class(&mut buf, BASE, BASE + 0x100, 0, BASE + 0x80);
    put_class(&mut buf, BASE + 0x80, BASE + 0x110, 0, BASE + 0x40);
    put_class(&mut buf, BASE + 0x40, BASE + 0x120, 0, 0);
    let mem = memory(buf);
    let ds = mem.walk(BASE);
    assert_eq!(ds.len(), 3);
    let names: Vec<Vec<u8>> = ds.iter().map(|d| d.name.clone()).collect();
    assert_eq!(names, vec![b"A".to_vec(), b"B".to_vec(), b"C".to_vec()]);
    for d in ds.iter() {
        assert_eq!(d.table, TableState::Absent);
        assert!(d.fields.is_empty());
    }
    assert_eq!(render(&ds), b"A\nB\nC\n".to_vec());
}

#[test]
fn nested_table_renders_one_level_deeper() {
    let mut buf = vec![0u8; 0x600];
    put_str(&mut buf, BASE + 0x500, "Root");
    put_str(&mut buf, BASE + 0x510, "DT_Root");
    put_str(&mut buf, BASE + 0x520, "m_a");
    put_str(&mut buf, BASE + 0x530, "m_b");
    put_str(&mut buf, BASE + 0x540, "DT_Child");
    put_str(&mut buf, BASE + 0x550, "m_c");
    put_class(&mut buf, BASE, BASE + 0x500, BASE + 0x40, 0);
    put_table(&mut buf, BASE + 0x40, BASE + 0x100, 2, BASE + 0x510);
    put_prop(&mut buf, BASE + 0x100, BASE + 0x520, 0x10, 0);
    put_prop(&mut buf, BASE + 0x160, BASE + 0x530, 0x20, BASE + 0x80);
    put_table(&mut buf, BASE + 0x80, BASE + 0x200, 1, BASE + 0x540);
    put_prop(&mut buf, BASE + 0x200, BASE + 0x550, 0x4, 0);
    let mem = memory(buf);
    let ds = mem.walk(BASE);
    assert_eq!(ds.len(), 1);
    assert_eq!(ds[0].table, TableState::Decoded);
    assert_eq!(ds[0].table_name, b"DT_Root".to_vec());
    let depths: Vec<usize> = ds[0].fields.iter().map(|f| f.depth).collect();
    assert_eq!(depths, vec![0, 0, 1]);
    assert_eq!(ds[0].fields[1].child, TableState::Decoded);
    assert_eq!(ds[0].fields[2].name, b"m_c".to_vec());
    assert_eq!(ds[0].fields[2].offset, 4);
    let text = String::from_utf8(render(&ds)).unwrap();
    assert_eq!(
        text,
        "Root -> DT_Root\n  m_a @ 0x00000010\n  m_b @ 0x00000020 -> DT_Child\n    m_c @ 0x00000004\n"
    );
}

#[test]
fn malformed_table_halts_only_its_branch() {
    let mut buf = vec![0u8; 0x600];
    put_str(&mut buf, BASE + 0x500, "First");
    put_str(&mut buf, BASE + 0x508, "Second");
    put_str(&mut buf, BASE + 0x510, "bad");
    put_str(&mut buf, BASE + 0x518, "good");
    put_str(&mut buf, BASE + 0x520, "leaf");
    put_str(&mut buf, BASE + 0x528, "DT_Bad");
    put_class(&mut buf, BASE, BASE + 0x500, BASE + 0x40, BASE + 0x380);
    put_class(&mut buf, BASE + 0x380, BASE + 0x508, BASE + 0xC0, 0);
    put_table(&mut buf, BASE + 0x40, BASE + 0x100, 2, 0);
    // The child table declares 5 records where the window holds fewer.
    put_prop(&mut buf, BASE + 0x100, BASE + 0x510, 8, BASE + 0x80);
    put_table(&mut buf, BASE + 0x80, BASE + 0x580, 5, BASE + 0x528);
    put_prop(&mut buf, BASE + 0x160, BASE + 0x518, 12, BASE + 0xC0);
    put_table(&mut buf, BASE + 0xC0, BASE + 0x200, 1, 0);
    put_prop(&mut buf, BASE + 0x200, BASE + 0x520, 16, 0);
    let mem = memory(buf);
    let ds = mem.walk(BASE);
    assert_eq!(ds.len(), 2);
    let f = &ds[0].fields;
    assert_eq!(f.len(), 3);
    assert_eq!(f[0].child, TableState::Malformed);
    assert_eq!(f[0].child_name, b"DT_Bad".to_vec());
    assert_eq!(f[1].name, b"good".to_vec());
    assert_eq!(f[1].child, TableState::Decoded);
    assert_eq!(f[2].name, b"leaf".to_vec());
    assert_eq!(f[2].depth, 1);
    assert_eq!(ds[1].name, b"Second".to_vec());
    assert_eq!(ds[1].fields.len(), 1);
    let text = String::from_utf8(render(&ds)).unwrap();
    assert!(text.contains("  bad @ 0x00000008 -> DT_Bad (malformed)\n"));
}

#[test]
fn negative_count_is_malformed() {
    let mut buf = vec![0u8; 0x200];
    put_class(&mut buf, BASE, 0, BASE + 0x40, 0);
    put_table(&mut buf, BASE + 0x40, BASE + 0x100, -1, 0);
    let mem = memory(buf);
    let ds = mem.walk(BASE);
    assert_eq!(ds.len(), 1);
    assert_eq!(ds[0].table, TableState::Malformed);
    assert!(ds[0].fields.is_empty());
}

#[test]
fn cyclic_tables_stop_at_depth_bound() {
    let mut buf = vec![0u8; 0x400];
    put_str(&mut buf, BASE + 0x300, "A");
    put_str(&mut buf, BASE + 0x308, "B");
    put_class(&mut buf, BASE, 0, BASE + 0x40, 0);
    put_table(&mut buf, BASE + 0x40, BASE + 0x100, 1, BASE + 0x300);
    put_prop(&mut buf, BASE + 0x100, BASE + 0x300, 0, BASE + 0x80);
    put_table(&mut buf, BASE + 0x80, BASE + 0x200, 1, BASE + 0x308);
    put_prop(&mut buf, BASE + 0x200, BASE + 0x308, 0, BASE + 0x40);
    let mem = memory(buf);
    let ds = mem.walk(BASE);
    assert_eq!(ds.len(), 1);
    let f = &ds[0].fields;
    assert_eq!(f.len(), MAX_DEPTH);
    assert_eq!(f.last().unwrap().depth, MAX_DEPTH - 1);
    assert_eq!(f.last().unwrap().child, TableState::TooDeep);
    assert!(f.iter().all(|x| x.depth < MAX_DEPTH));
}

#[test]
fn cyclic_list_is_bounded() {
    let mut buf = vec![0u8; 0x100];
    put_class(&mut buf, BASE, 0, 0, BASE);
    let mem = memory(buf);
    assert_eq!(mem.walk(BASE).len(), class_walker::walker::MAX_CLASSES);
}

#[test]
fn unreadable_link_ends_the_list() {
    let mut buf = vec![0u8; 0x100];
    put_class(&mut buf, BASE, 0, 0, 0xDEAD_0000);
    let mem = memory(buf);
    assert_eq!(mem.walk(BASE).len(), 1);
    assert!(mem.walk(0).is_empty());
}
