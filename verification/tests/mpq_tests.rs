use mpq::archive::{MPQ, OpenFlags};
use mpq::patch::PatchChain;
use mpq::crypt::{CryptTable, HashType, hash_name, derive_file_key, encrypt_block, decrypt_block};
use mpq::errors::ErrorKind;

const LISTFILE_BODY: &[u8] = b"war3map.j\r\nwar3map.w3i\r\nwar3map.wts\r\n";

fn fixture_bytes() -> Vec<u8> {
    let mut a = MPQ::create(8).unwrap();
    a.add_file("(listfile)", LISTFILE_BODY).unwrap();
    a.add_file("war3map.j", b"function main takes nothing returns nothing\nendfunction\n")
        .unwrap();
    a.save().unwrap()
}

fn fixture() -> MPQ {
    MPQ::open(fixture_bytes(), None, None).unwrap()
}

#[test]
fn test_open_archive() {
    let mpq = MPQ::open(fixture_bytes(), None, None);
    assert!(mpq.is_ok());
}

#[test]
fn test_close_archive() {
    let mut mpq = MPQ::open(fixture_bytes(), None, None).unwrap();
    assert_eq!(mpq.close(), true);
}

#[test]
fn test_get_file() {
    let mpq = MPQ::open(fixture_bytes(), None, None).unwrap();
    let file = mpq.get_file("(listfile)");
    assert!(file.is_ok());
}

#[test]
fn test_get_file_size() {
    let mpq = MPQ::open(fixture_bytes(), None, None).ok().unwrap();
    let file = mpq.get_file("(listfile)").ok().unwrap();
    assert_eq!(file.size(&mpq).unwrap(), LISTFILE_BODY.len() as u32);
}

#[test]
fn test_version() {
    assert_eq!(MPQ::version(), "9.25");
}

#[test]
fn test_locale() {
    let mpq = fixture();
    assert_eq!(mpq.get_locale(), 0);
}

#[test]
fn set_locale_returns_new_value() {
    let mut mpq = fixture();
    assert_eq!(mpq.set_locale(0x409), 0x409);
    assert_eq!(mpq.get_locale(), 0x409);
}

#[test]
fn hash_name_case_and_separator_insensitive() {
    let t = CryptTable::new();
    assert_eq!(
        hash_name(&t, b"A\\B.txt", HashType::NameA),
        hash_name(&t, b"a/b.TXT", HashType::NameA)
    );
    assert_eq!(
        hash_name(&t, b"Units\\Human\\Footman.mdx", HashType::NameB),
        hash_name(&t, b"units/human/FOOTMAN.MDX", HashType::NameB)
    );
}

#[test]
fn hash_name_matches_format_constants() {
    // These two key values are fixed by the archive format itself.
    let t = CryptTable::new();
    assert_eq!(hash_name(&t, b"(hash table)", HashType::FileKey), 0xC3AF3770);
    assert_eq!(hash_name(&t, b"(block table)", HashType::FileKey), 0xEC83B3A3);
}

#[test]
fn derive_file_key_strips_path_and_applies_fix_key() {
    let t = CryptTable::new();
    let base = derive_file_key(&t, b"dir\\sub\\file.bin", 0, 0, false);
    let bare = derive_file_key(&t, b"file.bin", 0, 0, false);
    assert_eq!(base, bare);
    let fixed = derive_file_key(&t, b"file.bin", 0x1000, 0x200, true);
    assert_eq!(fixed, base.wrapping_add(0x1000) ^ 0x200);
}

#[test]
fn cipher_round_trips() {
    let t = CryptTable::new();
    let words: Vec<u32> = vec![0, 1, 0xDEADBEEF, 0xFFFFFFFF, 42];
    let mut w = words.clone();
    encrypt_block(&t, &mut w, 0xC3AF3770);
    assert_ne!(w, words);
    decrypt_block(&t, &mut w, 0xC3AF3770);
    assert_eq!(w, words);
}

#[test]
fn round_trip_compressible_payload() {
    let body: Vec<u8> = std::iter::repeat(b"abcabcabc".iter().copied())
        .take(200)
        .flatten()
        .collect();
    let mut a = MPQ::create(4).unwrap();
    a.add_file("data.txt", &body).unwrap();
    let reopened = MPQ::open(a.save().unwrap(), None, None).unwrap();
    assert_eq!(reopened.extract("data.txt").unwrap(), body);
}

#[test]
fn round_trip_incompressible_payload() {
    let mut body: Vec<u8> = Vec::new();
    let mut x: u32 = 0x12345678;
    for _ in 0..256 {
        x = x.wrapping_mul(1664525).wrapping_add(1013904223);
        body.push((x >> 24) as u8);
    }
    let mut a = MPQ::create(4).unwrap();
    a.add_file("noise.bin", &body).unwrap();
    let reopened = MPQ::open(a.save().unwrap(), None, None).unwrap();
    assert_eq!(reopened.extract("noise.bin").unwrap(), body);
}

#[test]
fn round_trip_empty_payload() {
    let mut a = MPQ::create(4).unwrap();
    a.add_file("empty", b"").unwrap();
    let reopened = MPQ::open(a.save().unwrap(), None, None).unwrap();
    assert_eq!(reopened.extract("empty").unwrap(), b"");
}

#[test]
fn contains_iff_resolve() {
    let mpq = fixture();
    assert_eq!(mpq.contains("(listfile)"), mpq.resolve("(listfile)", 0, 0).is_ok());
    assert_eq!(mpq.contains("missing.txt"), mpq.resolve("missing.txt", 0, 0).is_ok());
    assert!(mpq.contains("(listfile)"));
    assert!(!mpq.contains("missing.txt"));
    assert_eq!(mpq.resolve("missing.txt", 0, 0).unwrap_err(), ErrorKind::NotFound);
}

#[test]
fn single_unit_needs_one_decode_regardless_of_read_size() {
    let body: Vec<u8> = std::iter::repeat(b"pattern!".iter().copied())
        .take(100)
        .flatten()
        .collect();
    let mut a = MPQ::create(4).unwrap();
    a.add_file("big.txt", &body).unwrap();
    let reopened = MPQ::open(a.save().unwrap(), None, None).unwrap();
    let mut f = reopened.get_file("big.txt").unwrap();
    let mut collected: Vec<u8> = Vec::new();
    loop {
        let chunk = f.read(&reopened, 7).unwrap();
        if chunk.is_empty() {
            break;
        }
        collected.extend_from_slice(&chunk);
    }
    assert_eq!(collected, body);
    assert_eq!(f.codec_calls, 1);
}

#[test]
fn listfile_scenario() {
    let mpq = fixture();
    assert!(mpq.contains("(listfile)"));
    let f = mpq.get_file("(listfile)").unwrap();
    assert_eq!(f.size(&mpq).unwrap() as usize, LISTFILE_BODY.len());
    assert_eq!(mpq.extract("(listfile)").unwrap(), LISTFILE_BODY);
}

#[test]
fn bad_magic_is_bad_format() {
    let mut data = fixture_bytes();
    data[0] = b'X';
    let r = MPQ::open(data, None, Some(OpenFlags::NoHeaderSearch));
    match r {
        Err(e) => assert_eq!(e, ErrorKind::BadFormat),
        Ok(_) => panic!("expected a format error"),
    }
}

#[test]
fn truncated_container_is_bad_format() {
    let r = MPQ::open(vec![0u8; 8], None, None);
    match r {
        Err(e) => assert_eq!(e, ErrorKind::BadFormat),
        Ok(_) => panic!("expected a format error"),
    }
}

#[test]
fn force_listfile_refuses_archive_without_one() {
    let mut a = MPQ::create(4).unwrap();
    a.add_file("only.txt", b"x").unwrap();
    let bytes = a.save().unwrap();
    let r = MPQ::open(bytes.clone(), None, Some(OpenFlags::ForceListFile));
    match r {
        Err(e) => assert_eq!(e, ErrorKind::NotFound),
        Ok(_) => panic!("expected a missing list file"),
    }
    assert!(MPQ::open(bytes, None, None).is_ok());
}

#[test]
fn read_after_close_is_invalid_handle() {
    let mut mpq = fixture();
    let mut f = mpq.get_file("(listfile)").unwrap();
    assert_eq!(mpq.close(), true);
    assert!(mpq.is_closed());
    let r = f.read(&mpq, 16);
    assert_eq!(r.unwrap_err(), ErrorKind::InvalidHandle);
    assert_eq!(f.size(&mpq).unwrap_err(), ErrorKind::InvalidHandle);
    assert_eq!(f.name(&mpq).unwrap_err(), ErrorKind::InvalidHandle);
}

#[test]
fn tombstone_shadows_lower_layer() {
    let mut base = MPQ::create(8).unwrap();
    base.add_file("X", b"base payload of X").unwrap();
    base.add_file("Y", b"base payload of Y").unwrap();
    let base = MPQ::open(base.save().unwrap(), None, None).unwrap();
    assert!(base.contains("X"));

    let mut patch = MPQ::create(8).unwrap();
    patch.delete_file("X").unwrap();
    patch.add_file("Z", b"patch payload of Z").unwrap();
    let patch = MPQ::open(patch.save().unwrap(), None, None).unwrap();

    let mut chain = PatchChain::new();
    chain.push_layer(base);
    chain.push_layer(patch);

    assert!(!chain.contains("X"));
    assert_eq!(chain.resolve("X", 0, 0).unwrap_err(), ErrorKind::NotFound);
    assert_eq!(chain.extract("X").unwrap_err(), ErrorKind::NotFound);
    assert!(chain.contains("Y"));
    assert_eq!(chain.extract("Y").unwrap(), b"base payload of Y");
    assert!(chain.contains("Z"));
    assert_eq!(chain.extract("Z").unwrap(), b"patch payload of Z");
}

#[test]
fn chain_contains_iff_resolve() {
    let mut base = MPQ::create(4).unwrap();
    base.add_file("k", b"v").unwrap();
    let base = MPQ::open(base.save().unwrap(), None, None).unwrap();
    let mut chain = PatchChain::new();
    chain.push_layer(base);
    assert_eq!(chain.contains("k"), chain.resolve("k", 0, 0).is_ok());
    assert_eq!(chain.contains("nope"), chain.resolve("nope", 0, 0).is_ok());
    assert!(chain.contains("k"));
    assert!(!chain.contains("nope"));
}

#[test]
fn patch_layer_overrides_base() {
    let mut base = MPQ::create(4).unwrap();
    base.add_file("f", b"old contents").unwrap();
    let base = MPQ::open(base.save().unwrap(), None, None).unwrap();
    let mut patch = MPQ::create(4).unwrap();
    patch.add_file("f", b"new contents").unwrap();
    let patch = MPQ::open(patch.save().unwrap(), None, None).unwrap();
    let mut chain = PatchChain::new();
    chain.push_layer(base);
    chain.push_layer(patch);
    assert_eq!(chain.extract("f").unwrap(), b"new contents");
}

#[test]
fn open_close_reopen_succeeds() {
    let bytes = fixture_bytes();
    let mut first = MPQ::open(bytes.clone(), None, None).unwrap();
    assert_eq!(first.close(), true);
    assert_eq!(first.close(), false);
    assert!(MPQ::open(bytes, None, None).is_ok());
}

#[test]
fn duplicate_name_already_exists() {
    let mut a = MPQ::create(4).unwrap();
    a.add_file("x", b"1").unwrap();
    assert_eq!(a.add_file("x", b"2").unwrap_err(), ErrorKind::AlreadyExists);
}

#[test]
fn full_hash_table_is_disk_full() {
    let mut a = MPQ::create(1).unwrap();
    a.add_file("a", b"1").unwrap();
    a.add_file("b", b"2").unwrap();
    a.add_file("c", b"3").unwrap();
    a.add_file("d", b"4").unwrap();
    assert_eq!(a.add_file("e", b"5").unwrap_err(), ErrorKind::DiskFull);
}

#[test]
fn read_only_archive_refuses_writes() {
    let bytes = fixture_bytes();
    let mut mpq = MPQ::open(bytes, None, Some(OpenFlags::ReadOnly)).unwrap();
    assert_eq!(mpq.add_file("new", b"x").unwrap_err(), ErrorKind::AccessDenied);
}

#[test]
fn create_rejects_oversized_table() {
    match MPQ::create(0x80001) {
        Err(e) => assert_eq!(e, ErrorKind::InvalidParameter),
        Ok(_) => panic!("expected a parameter error"),
    }
}

#[test]
fn file_handle_reports_name() {
    let mpq = fixture();
    let f = mpq.get_file("war3map.j").unwrap();
    assert_eq!(f.name(&mpq).unwrap(), "war3map.j");
}

#[test]
fn error_kinds_describe_themselves() {
    assert_eq!(ErrorKind::NotFound.describe(), "File not found");
    assert_eq!(ErrorKind::BadFormat.describe(), "Bad format");
    assert_eq!(ErrorKind::FileCorrupt.describe(), "File corrupt");
    assert_eq!(ErrorKind::Unknown.describe(), "Unknown error");
}
