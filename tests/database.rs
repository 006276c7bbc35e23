use qingtuan::database::{execute, GetOp, GetReturn, Operation, PutOp, Return};
use qingtuan::internal_database::InternalDatabase;
use qingtuan::protocol_parser::ProtocolWriter;
use qingtuan::slice::Slice;

fn s(text: &str) -> Slice {
    Slice::from(String::from(text))
}

fn get(db: &mut InternalDatabase, key: &str) -> Vec<u8> {
    match execute(db, Operation::Get(GetOp(s(key)))) {
        Some(Return::Get(GetReturn(v))) => v.into_bytes(),
        None => panic!("a GET always replies"),
    }
}

fn put(db: &mut InternalDatabase, key: &str, value: &str) {
    assert!(execute(db, Operation::Put(PutOp(s(key), s(value)))).is_none());
}

#[test]
fn put_then_get_reads_the_value() {
    let mut db = InternalDatabase::new();
    put(&mut db, "a", "1");
    assert_eq!(get(&mut db, "a"), b"1".to_vec());
}

#[test]
fn second_put_wins() {
    let mut db = InternalDatabase::new();
    put(&mut db, "a", "1");
    put(&mut db, "a", "2");
    assert_eq!(get(&mut db, "a"), b"2".to_vec());
}

#[test]
fn get_of_missing_key_replies_empty_frame() {
    let mut db = InternalDatabase::new();
    let reply = execute(&mut db, Operation::Get(GetOp(s("missing")))).unwrap();
    let mut w = ProtocolWriter::new();
    w.write_return(reply);
    assert_eq!(w.into_bytes(), vec![b'$', 0, 0, 0, 0, b'\r', b'\n', b'\r', b'\n']);
}

#[test]
fn thousand_keys_read_back() {
    let mut db = InternalDatabase::new();
    for i in 0..1000 {
        put(&mut db, &format!("{}", i), &format!("{}", i + 1));
    }
    for i in 0..1000 {
        assert_eq!(get(&mut db, &format!("{}", i)), format!("{}", i + 1).into_bytes());
    }
}

#[test]
fn other_keys_do_not_hide_a_write() {
    let mut db = InternalDatabase::new();
    put(&mut db, "k", "v");
    put(&mut db, "other", "x");
    assert_eq!(get(&mut db, "other"), b"x".to_vec());
    assert_eq!(get(&mut db, "k"), b"v".to_vec());
}

#[test]
fn internal_database_get_and_put() {
    let mut db = InternalDatabase::new();
    assert!(db.get(s("a")).is_none());
    db.put(s("a"), s("b"));
    assert!(db.get(s("a")).unwrap() == s("b"));
}

#[test]
fn interleaved_clients_yield_sorted_union() {
    let mut db = InternalDatabase::new();
    let mut all: Vec<u32> = Vec::new();
    let mut batches: Vec<Vec<u32>> = Vec::new();
    for _ in 0..8 {
        let mut batch = Vec::new();
        while batch.len() < 5 {
            let k: u32 = rand::random();
            if !all.contains(&k) {
                all.push(k);
                batch.push(k);
            }
        }
        batches.push(batch);
    }
    for round in 0..5 {
        for batch in &batches {
            let k = batch[round];
            db.put(Slice::from(k.to_be_bytes().to_vec()), Slice::from(k.to_string().into_bytes()));
        }
    }
    for k in &all {
        let v = db.get(Slice::from(k.to_be_bytes().to_vec())).unwrap();
        assert_eq!(v.into_bytes(), k.to_string().into_bytes());
    }
}
