use yamemcache::error::MemcacheError;
use yamemcache::protocol::{check_key_invalid, GetReply, ManyReply, Meta, RawValue};

fn fetch(meta: &Meta, header: &[u8], block: &[u8]) -> Option<RawValue> {
    match meta.get_reply(header) {
        Ok(GetReply::NotFound) => None,
        Ok(GetReply::Found { length, flags }) => {
            assert_eq!(block.len(), length + 2);
            Some(meta.value_from_block(block.to_vec(), length, flags))
        }
        Err(_) => panic!("bad get reply"),
    }
}

#[test]
fn basic_commands() {
    let meta = Meta::new();
    assert_eq!(meta.version_request(), b"version\r\n".to_vec());
    assert!(meta.version_reply(b"VERSION 1.6.21\r\n").is_ok(), "Client.version() failed");

    let value1 = RawValue::from_vec(vec![0, 1, 2, 3]).set_flags(33);
    let key1 = "testkey1";
    let value2 = RawValue::from_vec(vec![4, 5, 6, 7]).set_flags(42);
    let key2 = "testkey2";

    let req = meta.set_request(key1, &value1).ok().expect("Client.set() failed");
    assert_eq!(req, b"ms testkey1 S4 T0 F33\r\n\x00\x01\x02\x03\r\n".to_vec());
    assert!(meta.set_reply(b"HD\r\n").is_ok(), "Client.set() failed");
    let req = meta.set_request(key2, &value2).ok().expect("Client.set() failed");
    assert_eq!(req, b"ms testkey2 S4 T0 F42\r\n\x04\x05\x06\x07\r\n".to_vec());
    assert!(meta.set_reply(b"HD\r\n").is_ok(), "Client.set() failed");

    let req = meta.get_many_request(&[key1, key2]).ok().expect("Client.get_many() failed");
    assert_eq!(req, b"get testkey1 testkey2\r\n".to_vec());
    let server: Vec<(&[u8], &[u8])> = vec![
        (b"VALUE testkey1 33 4\r\n", b"\x00\x01\x02\x03\r\n"),
        (b"VALUE testkey2 42 4\r\n", b"\x04\x05\x06\x07\r\n"),
    ];
    let mut retval: Vec<(String, RawValue)> = Vec::new();
    for (line, block) in server {
        match meta.get_many_reply(line) {
            Ok(ManyReply::Record { key, flags, length }) => {
                assert_eq!(block.len(), length + 2);
                meta.push_record(&mut retval, key, block.to_vec(), length, flags);
            }
            _ => panic!("Client.get_many() failed"),
        }
    }
    assert!(matches!(meta.get_many_reply(b"END\r\n"), Ok(ManyReply::End)));
    let mut found: u32 = 0;
    for (key, val) in retval {
        if key == key1 {
            if val.data == value1.data && val.flags == value1.flags {
                found |= 1;
            }
        } else if key == key2 {
            if val.data == value2.data && val.flags == value2.flags {
                found |= 2;
            }
        } else {
            panic!("{}", format!("Client.get_many() returned a bad key: {}", key));
        }
    }
    assert_eq!(found, 3, "Client.get_many() returned a different value.");

    let req = meta.get_request(key1).ok().expect("Client::get() failed");
    assert_eq!(req, b"mg testkey1 f v\r\n".to_vec());
    let retval = fetch(&meta, b"VA 4 f33\r\n", b"\x00\x01\x02\x03\r\n").expect("Client::get() failed");
    assert_eq!(retval.data, value1.data, "Client.get() returned a different value.");
    assert_eq!(retval.flags, value1.flags, "Client.get() returned a different value.");

    let req = meta.delete_request(key1).ok().expect("Client.delete() failed");
    assert_eq!(req, b"delete testkey1\r\n".to_vec());
    assert!(meta.delete_reply(b"DELETED\r\n").is_ok(), "Client.delete() failed");
    let retval = fetch(&meta, b"EN\r\n", b"");
    assert!(retval.is_none(), "Client.get() returned a value after it was deleted");
    assert!(meta.delete_reply(b"DELETED\r\n").is_ok(), "Client.delete() failed");
}

#[test]
fn bad_keys_are_refused_by_every_request() {
    let meta = Meta::new();
    let value = RawValue::from_vec(vec![1]);
    for key in ["a b", "tab\tkey", "nl\n", "\u{1}", "del\u{7f}", "k\u{e9}y", " "] {
        assert!(check_key_invalid(key));
        assert!(matches!(meta.get_request(key), Err(MemcacheError::BadKey)));
        assert!(matches!(meta.set_request(key, &value), Err(MemcacheError::BadKey)));
        assert!(matches!(meta.delete_request(key), Err(MemcacheError::BadKey)));
        assert!(matches!(meta.get_many_request(&["good", key]), Err(MemcacheError::BadKey)));
    }
}

#[test]
fn printable_keys_are_accepted() {
    let meta = Meta::new();
    for key in ["!", "~", "a!~z", "testkey1"] {
        assert!(!check_key_invalid(key));
        assert!(meta.get_request(key).is_ok());
        assert!(meta.delete_request(key).is_ok());
    }
    assert_eq!(meta.get_request("!~").ok().unwrap(), b"mg !~ f v\r\n".to_vec());
}

#[test]
fn get_many_request_lists_every_key() {
    let meta = Meta::new();
    assert_eq!(meta.get_many_request(&[]).ok().unwrap(), b"get\r\n".to_vec());
    assert_eq!(meta.get_many_request(&["a"]).ok().unwrap(), b"get a\r\n".to_vec());
    assert_eq!(meta.get_many_request(&["a", "b", "a"]).ok().unwrap(), b"get a b a\r\n".to_vec());
}

#[test]
fn set_request_writes_ttl_and_large_numbers() {
    let meta = Meta::new();
    let v = RawValue::from_vec(b"hello".to_vec()).set_flags(u32::MAX).set_time(Some(60));
    assert_eq!(
        meta.set_request("k", &v).ok().unwrap(),
        b"ms k S5 T60 F4294967295\r\nhello\r\n".to_vec()
    );
    let empty = RawValue::from_vec(Vec::new()).set_cas(Some(9));
    assert_eq!(meta.set_request("k", &empty).ok().unwrap(), b"ms k S0 T0 F0\r\n\r\n".to_vec());
    let ten = RawValue::from_vec(vec![7; 10]).set_time(Some(0));
    let req = meta.set_request("k", &ten).ok().unwrap();
    assert!(req.starts_with(b"ms k S10 T0 F0\r\n"));
    assert_eq!(req.len(), 16 + 10 + 2);
}

#[test]
fn get_reply_not_found_and_found() {
    let meta = Meta::new();
    assert_eq!(meta.get_reply(b"EN\r\n").ok(), Some(GetReply::NotFound));
    assert_eq!(meta.get_reply(b"EN\n").ok(), Some(GetReply::NotFound));
    assert_eq!(meta.get_reply(b"VA 4 f33\r\n").ok(), Some(GetReply::Found { length: 4, flags: 33 }));
    let v = meta.value_from_block(b"abcd\r\n".to_vec(), 4, 33);
    assert_eq!(v.data, b"abcd".to_vec());
    assert_eq!(v.flags, 33);
    assert_eq!(v.time, None);
    assert_eq!(v.cas, None);
    assert_eq!(meta.get_reply(b"VA 0 f0\r\n").ok(), Some(GetReply::Found { length: 0, flags: 0 }));
    assert_eq!(
        meta.get_reply(b"VA +12  f+4294967295\r\n").ok(),
        Some(GetReply::Found { length: 12, flags: u32::MAX })
    );
}

#[test]
fn get_reply_malformed_headers() {
    let meta = Meta::new();
    let bad: [&[u8]; 11] = [
        b"",
        b"\r\n",
        b"XX\r\n",
        b"VA\r\n",
        b"VA 4\r\n",
        b"VA x f1\r\n",
        b"VA 4 33\r\n",
        b"VA 4 f\r\n",
        b"VA 4 f33 t1\r\n",
        b"VA 4 f4294967296\r\n",
        b"EN \xff\r\n",
    ];
    for line in bad {
        assert!(matches!(meta.get_reply(line), Err(MemcacheError::BadServerResponse)));
    }
}

#[test]
fn get_many_record_and_end() {
    let meta = Meta::new();
    match meta.get_many_reply(b"VALUE testkey2 42 4\r\n") {
        Ok(ManyReply::Record { key, flags, length }) => {
            assert_eq!(key, "testkey2");
            assert_eq!(flags, 42);
            assert_eq!(length, 4);
        }
        _ => panic!("expected a record"),
    }
    match meta.get_many_reply("VALUE k\u{e9}y 1 2\r\n".as_bytes()) {
        Ok(ManyReply::Record { key, .. }) => assert_eq!(key, "k\u{e9}y"),
        _ => panic!("expected a record"),
    }
    assert!(matches!(meta.get_many_reply(b"END\r\n"), Ok(ManyReply::End)));
    assert!(matches!(meta.get_many_reply(b"END\n"), Ok(ManyReply::End)));
}

#[test]
fn get_many_malformed_record_aborts() {
    let meta = Meta::new();
    let bad: [&[u8]; 8] = [
        b"VALUE key 33\r\n",
        b"VALUE key 33 4 5\r\n",
        b"VALUES key 33 4\r\n",
        b"VALUE key x 4\r\n",
        b"VALUE key 33 -4\r\n",
        b"VALUE key 4294967296 4\r\n",
        b"VALUE k\xff 1 2\r\n",
        b"",
    ];
    for line in bad {
        assert!(matches!(meta.get_many_reply(line), Err(MemcacheError::BadServerResponse)));
    }
}

#[test]
fn set_reply_kinds() {
    let meta = Meta::new();
    assert!(meta.set_reply(b"HD\r\n").is_ok());
    assert!(meta.set_reply(b"OK\r\n").is_ok());
    assert!(meta.set_reply(b"HD c1\r\n").is_ok());
    assert!(matches!(meta.set_reply(b"CLIENT_ERROR bad data chunk\r\n"), Err(MemcacheError::BadQuery)));
    assert!(matches!(meta.set_reply(b"NS\r\n"), Err(MemcacheError::BadServerResponse)));
    assert!(matches!(meta.set_reply(b"\r\n"), Err(MemcacheError::BadServerResponse)));
    assert!(matches!(meta.set_reply(b"HD \xfe\r\n"), Err(MemcacheError::BadServerResponse)));
}

#[test]
fn delete_reply_kinds() {
    let meta = Meta::new();
    assert_eq!(meta.delete_reply(b"DELETED\r\n").ok(), Some(Some(())));
    assert_eq!(meta.delete_reply(b"NOT_FOUND\r\n").ok(), Some(None));
    assert!(matches!(meta.delete_reply(b"DELETED \r\n"), Err(MemcacheError::BadServerResponse)));
    assert!(matches!(meta.delete_reply(b"ERROR\r\n"), Err(MemcacheError::BadServerResponse)));
}

#[test]
fn deleting_a_missing_key_is_not_found() {
    let meta = Meta::new();
    assert!(meta.delete_request("nosuchkey").is_ok());
    assert_eq!(meta.delete_reply(b"NOT_FOUND\r\n").ok(), Some(None));
}

#[test]
fn version_reply_kinds() {
    let meta = Meta::new();
    assert_eq!(meta.version_reply(b"VERSION 1.6.21\r\n").ok(), Some("1.6.21".to_string()));
    assert_eq!(meta.version_reply(b"  VERSION 1.6.21 \r\n").ok(), Some("1.6.21".to_string()));
    assert_eq!(
        meta.version_reply("\u{3000}VERSION 1.6\u{a0}".as_bytes()).ok(),
        Some("1.6".to_string())
    );
    assert!(matches!(meta.version_reply(b"1.6.21\r\n"), Err(MemcacheError::BadServerResponse)));
    assert!(matches!(meta.version_reply(b"VERSION \r\n"), Err(MemcacheError::BadServerResponse)));
    assert!(matches!(meta.version_reply(b"VERSION 1\xff\r\n"), Err(MemcacheError::BadServerResponse)));
}

#[test]
fn raw_value_builders() {
    let v = RawValue::from_vec(vec![1, 2]);
    assert_eq!((v.flags, v.time, v.cas), (0, None, None));
    let v = v.set_flags(5).set_time(Some(7)).set_cas(Some(9));
    assert_eq!(v.data, vec![1, 2]);
    assert_eq!((v.flags, v.time, v.cas), (5, Some(7), Some(9)));
    let w: RawValue = RawValue::from(vec![3]);
    assert_eq!((w.data, w.flags, w.time, w.cas), (vec![3], 0, None, None));
}

#[test]
fn push_record_keeps_server_order() {
    let meta = Meta::new();
    let mut values: Vec<(String, RawValue)> = Vec::new();
    meta.push_record(&mut values, "b".to_string(), b"xy\r\n".to_vec(), 2, 7);
    meta.push_record(&mut values, "a".to_string(), b"\r\n".to_vec(), 0, 8);
    assert_eq!(values.len(), 2);
    assert_eq!(values[0].0, "b");
    assert_eq!(values[0].1.data, b"xy".to_vec());
    assert_eq!(values[0].1.flags, 7);
    assert_eq!(values[1].0, "a");
    assert!(values[1].1.data.is_empty());
    assert_eq!(values[1].1.flags, 8);
}
