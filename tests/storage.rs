use tinydb::bufpage::{new_page, page_add_item, page_check, page_init, page_iter, ITEM_ID_SIZE, PAGE_HEADER_SIZE, PAGE_SIZE};
use tinydb::buffer::BufferPool;
use tinydb::catalog::{heap_create, init_database, Catalog, PgAttribute, PgClass, PG_ATTRIBUTE_OID, PG_CLASS_OID, FIRST_NORMAL_OID};
use tinydb::codec::serialize_i32;
use tinydb::engine::Engine;
use tinydb::heap::{heap_insert, heap_scan, HeapTuple, MAX_TUPLE_SIZE};
use tinydb::pager::{Error, MemPage, Pager};
use tinydb::rel::Relation;

fn u16_at(p: &[u8], a: usize) -> usize {
    p[a] as usize + 256 * p[a + 1] as usize
}

fn pool_with_relation(capacity: usize, oid: u32, pages: u32) -> (BufferPool, Relation) {
    let mut pager = Pager::open(&[]).unwrap();
    for i in 0..pages {
        let n = pager.allocate_page();
        pager.write_page(&MemPage { number: n, data: vec![i as u8 + 1; PAGE_SIZE] }).unwrap();
    }
    let mut pool = BufferPool::new(capacity);
    pool.register_pager(oid, pager).unwrap();
    (pool, Relation::open(oid, "data", "db", "r"))
}

#[test]
fn fresh_page_header() {
    let p = new_page();
    assert_eq!(p.len(), PAGE_SIZE);
    assert_eq!(u16_at(&p, 0), PAGE_HEADER_SIZE);
    assert_eq!(u16_at(&p, 2), PAGE_SIZE);
    assert_eq!(u16_at(&p, 4), PAGE_SIZE);
    assert!(page_check(&p));
    assert!(page_iter(&p).is_empty());
    let mut q = vec![9u8; PAGE_SIZE];
    page_init(&mut q);
    assert!(page_check(&q));
}

#[test]
fn items_come_back_in_insertion_order() {
    let mut p = new_page();
    let payloads: Vec<Vec<u8>> = vec![vec![1, 2, 3], vec![4], vec![5, 6, 7, 8, 9]];
    for x in &payloads {
        page_add_item(&mut p, x).unwrap();
    }
    assert_eq!(page_iter(&p), payloads);
    assert_eq!(u16_at(&p, 0), PAGE_HEADER_SIZE + 3 * ITEM_ID_SIZE);
    assert_eq!(u16_at(&p, 2), PAGE_SIZE - 9);
    assert!(page_check(&p));
}

#[test]
fn empty_payload_and_full_page_are_refused() {
    let mut p = new_page();
    assert_eq!(page_add_item(&mut p, &[]), Err(Error::PageFull));
    let big = vec![7u8; PAGE_SIZE - PAGE_HEADER_SIZE - ITEM_ID_SIZE];
    assert_eq!(big.len(), MAX_TUPLE_SIZE);
    let mut q = p.clone();
    assert_eq!(page_add_item(&mut q, &vec![7u8; MAX_TUPLE_SIZE + 1]), Err(Error::PageFull));
    assert_eq!(q, p);
    page_add_item(&mut p, &big).unwrap();
    assert_eq!(page_add_item(&mut p, &[1]), Err(Error::PageFull));
    assert_eq!(page_iter(&p), vec![big]);
}

#[test]
fn corrupted_page_is_detected() {
    let mut p = new_page();
    page_add_item(&mut p, &[1, 2]).unwrap();
    let mut bad = p.clone();
    bad[PAGE_HEADER_SIZE] = 0;
    bad[PAGE_HEADER_SIZE + 1] = 0;
    assert!(!page_check(&bad));
    assert!(!page_check(&vec![0u8; PAGE_SIZE]));
    assert!(!page_check(&p[..100]));
}

#[test]
fn fetch_twice_shares_one_frame() {
    let (mut pool, rel) = pool_with_relation(4, 20000, 2);
    let h1 = pool.fetch_buffer(&rel, 1).unwrap();
    let h2 = pool.fetch_buffer(&rel, 1).unwrap();
    assert_eq!(h1.frame_index(), h2.frame_index());
    let mut data = pool.get_page(&h1).clone();
    data[10] = 42;
    pool.set_page(&h1, data);
    assert_eq!(pool.get_page(&h2)[10], 42);
    pool.unpin_buffer(h1, true).unwrap();
    pool.unpin_buffer(h2, false).unwrap();
}

#[test]
fn dirty_page_survives_eviction() {
    let (mut pool, rel) = pool_with_relation(2, 20000, 3);
    let h = pool.fetch_buffer(&rel, 1).unwrap();
    let mut data = pool.get_page(&h).clone();
    data[0] = 0xAB;
    pool.set_page(&h, data.clone());
    pool.unpin_buffer(h, true).unwrap();
    let h2 = pool.fetch_buffer(&rel, 2).unwrap();
    pool.unpin_buffer(h2, false).unwrap();
    let h3 = pool.fetch_buffer(&rel, 3).unwrap();
    pool.unpin_buffer(h3, false).unwrap();
    assert_eq!(pool.pager(20000).unwrap().read_page(1).unwrap().data, data);
    let again = pool.fetch_buffer(&rel, 1).unwrap();
    assert_eq!(pool.get_page(&again), &data);
    pool.unpin_buffer(again, false).unwrap();
}

#[test]
fn exhausted_pool_and_bad_page_numbers() {
    let (mut pool, rel) = pool_with_relation(1, 20000, 2);
    let h = pool.fetch_buffer(&rel, 1).unwrap();
    assert_eq!(pool.fetch_buffer(&rel, 2).err(), Some(Error::BufferPoolExhausted));
    assert_eq!(pool.alloc_buffer(&rel).err(), Some(Error::BufferPoolExhausted));
    pool.unpin_buffer(h, false).unwrap();
    assert_eq!(pool.fetch_buffer(&rel, 0).err(), Some(Error::IncorrectPageNumber));
    assert_eq!(pool.fetch_buffer(&rel, 3).err(), Some(Error::IncorrectPageNumber));
    let other = Relation::open(7, "data", "db", "x");
    assert_eq!(pool.fetch_buffer(&other, 1).err(), Some(Error::RelationNotFound));
    assert_eq!(pool.register_pager(20000, Pager::open(&[]).unwrap()), Err(Error::AlreadyExists));
}

#[test]
fn flush_writes_allocated_page() {
    let (mut pool, rel) = pool_with_relation(2, 20000, 0);
    let h = pool.alloc_buffer(&rel).unwrap();
    pool.unpin_buffer(h, false).unwrap();
    pool.flush_all_buffers().unwrap();
    let page = pool.pager(20000).unwrap().read_page(1).unwrap().data;
    assert_eq!(page, new_page());
}

#[test]
fn heap_scan_returns_inserts_in_order() {
    let (mut pool, rel) = pool_with_relation(3, 20000, 0);
    let mut expected = Vec::new();
    for i in 0..50u32 {
        let data = vec![i as u8; 1000 + i as usize];
        heap_insert(&mut pool, &rel, &HeapTuple { data: data.clone() }).unwrap();
        expected.push(data);
    }
    let got: Vec<Vec<u8>> = heap_scan(&mut pool, &rel).unwrap().into_iter().map(|t| t.data).collect();
    assert_eq!(got, expected);
    assert!(pool.pager(20000).unwrap().size().unwrap() > 1);
}

#[test]
fn heap_insert_first_fit_fills_earlier_page() {
    let (mut pool, rel) = pool_with_relation(3, 20000, 0);
    let big = vec![1u8; 10000];
    let bigger = vec![2u8; 10000];
    let small = vec![3u8; 10];
    for d in [&big, &bigger, &small] {
        heap_insert(&mut pool, &rel, &HeapTuple { data: d.clone() }).unwrap();
    }
    let got: Vec<Vec<u8>> = heap_scan(&mut pool, &rel).unwrap().into_iter().map(|t| t.data).collect();
    assert_eq!(got, vec![big, small, bigger]);
}

#[test]
fn heap_insert_refusals() {
    let (mut pool, rel) = pool_with_relation(2, 20000, 0);
    assert_eq!(heap_insert(&mut pool, &rel, &HeapTuple { data: vec![] }), Err(Error::PageFull));
    assert_eq!(heap_insert(&mut pool, &rel, &HeapTuple { data: vec![0; MAX_TUPLE_SIZE + 1] }), Err(Error::PageFull));
    let other = Relation::open(5, "data", "db", "x");
    assert_eq!(heap_insert(&mut pool, &other, &HeapTuple { data: vec![1] }), Err(Error::RelationNotFound));
    assert!(heap_scan(&mut pool, &other).is_err());
}

#[test]
fn corrupted_page_fails_scan() {
    let (mut pool, rel) = pool_with_relation(2, 20000, 1);
    assert_eq!(heap_scan(&mut pool, &rel).err(), Some(Error::CorruptedFile));
}

#[test]
fn catalog_rows_round_trip() {
    let c = PgClass { oid: 1259, relname: String::from("pg_class") };
    let b = c.serialize();
    assert_eq!(&b[..4], &[0xEB, 0x04, 0, 0]);
    assert_eq!(&b[4..12], &[8, 0, 0, 0, 0, 0, 0, 0]);
    assert_eq!(&b[12..], b"pg_class");
    let d = PgClass::deserialize(&b).unwrap();
    assert_eq!((d.oid, d.relname.as_str()), (1259, "pg_class"));
    let a = PgAttribute { attrelid: 9, attname: String::from("a"), attnum: 2, attlen: 4 };
    let b = a.serialize();
    assert_eq!(b.len(), 4 + 8 + 1 + 16);
    let d = PgAttribute::deserialize(&b).unwrap();
    assert_eq!((d.attrelid, d.attname.as_str(), d.attnum, d.attlen), (9, "a", 2, 4));
    assert!(matches!(PgClass::deserialize(&[1, 2]), Err(Error::Deserialize(_))));
    assert!(matches!(PgAttribute::deserialize(&b[..b.len() - 1]), Err(Error::Deserialize(_))));
    assert!(matches!(PgClass::deserialize(&[1, 0, 0, 0, 2, 0, 0, 0, 0, 0, 0, 0, 0xff, 0xff]), Err(Error::Deserialize(_))));
}

#[test]
fn serialize_i32_is_little_endian() {
    assert_eq!(serialize_i32(87), vec![87, 0, 0, 0]);
    assert_eq!(serialize_i32(-2), vec![0xfe, 0xff, 0xff, 0xff]);
    assert_eq!(serialize_i32(0x01020304), vec![4, 3, 2, 1]);
}

#[test]
fn bootstrap_catalog_lists_itself() {
    let mut pool = BufferPool::new(8);
    init_database(&mut pool, "data", "db").unwrap();
    let rel = Relation::open(PG_CLASS_OID, "data", "db", "pg_class");
    let rows = heap_scan(&mut pool, &rel).unwrap();
    let decoded: Vec<(u32, String)> = rows
        .iter()
        .map(|t| {
            let c = PgClass::deserialize(&t.data).unwrap();
            (c.oid, c.relname)
        })
        .collect();
    assert_eq!(decoded, vec![(1259, String::from("pg_class")), (1249, String::from("pg_attribute"))]);
    let catalog = Catalog::new("data");
    assert_eq!(catalog.get_oid_relation(&mut pool, "db", "pg_attribute"), Ok(PG_ATTRIBUTE_OID));
    assert_eq!(catalog.get_oid_relation(&mut pool, "db", "nope"), Err(Error::RelationNotFound));
    let attrs = catalog.get_attributes_from_relation(&mut pool, "db", "pg_attribute").unwrap();
    let names: Vec<&str> = attrs.iter().map(|a| a.attname.as_str()).collect();
    assert_eq!(names, vec!["attrelid", "attname", "attnum", "attlen"]);
    assert_eq!(init_database(&mut pool, "data", "db"), Err(Error::AlreadyExists));
}

#[test]
fn create_table_then_insert_and_scan() {
    let mut pool = BufferPool::new(8);
    init_database(&mut pool, "data", "db").unwrap();
    let cols = vec![(String::from("a"), 4usize), (String::from("b"), 4usize), (String::from("c"), 4usize)];
    let oid = heap_create(&mut pool, "data", "db", "t", &cols).unwrap();
    assert_eq!(oid, FIRST_NORMAL_OID);
    assert_eq!(heap_create(&mut pool, "data", "db", "t", &cols), Err(Error::AlreadyExists));
    let oid2 = heap_create(&mut pool, "data", "db", "u", &cols).unwrap();
    assert_eq!(oid2, FIRST_NORMAL_OID + 1);
    let catalog = Catalog::new("data");
    let attrs = catalog.get_attributes_from_relation(&mut pool, "db", "t").unwrap();
    let got: Vec<(u32, &str, usize, usize)> =
        attrs.iter().map(|a| (a.attrelid, a.attname.as_str(), a.attnum, a.attlen)).collect();
    assert_eq!(got, vec![(oid, "a", 0, 4), (oid, "b", 1, 4), (oid, "c", 2, 4)]);
    let rel = Relation::open(oid, "data", "db", "t");
    assert_eq!(rel.file_path, "data/db/t");
    heap_insert(&mut pool, &rel, &HeapTuple { data: serialize_i32(87) }).unwrap();
    let rows = heap_scan(&mut pool, &rel).unwrap();
    assert_eq!(rows.len(), 1);
    assert_eq!(i32::from_le_bytes([rows[0].data[0], rows[0].data[1], rows[0].data[2], rows[0].data[3]]), 87);
}

#[test]
fn test_engine() -> Result<(), Error> {
    let buffer = BufferPool::new(120);
    let mut engine = Engine::new(buffer, "/tmp/test_engine_data");
    let db_name = "test_engine";
    engine.create_database(db_name)?;
    engine.create_table(db_name, "t", &vec![(String::from("a"), 4)])?;
    engine.insert_into(db_name, "t", &vec![87])?;
    let (desc, tuples) = engine.scan_table(db_name, "t")?;
    assert_eq!(desc.attrs.len(), 1);
    assert_eq!(desc.attrs[0].attname, "a");
    assert_eq!(desc.attrs[0].attnum, 0);
    assert_eq!(desc.attrs[0].attlen, 4);
    assert_eq!(tuples.len(), 1);
    assert_eq!(tuples[0].data, vec![87, 0, 0, 0]);
    engine.flush()?;
    assert!(engine.buffer_pool().pager(16384).is_some());
    Ok(())
}
