use mc5_core::bucket::{
    engine_answer, labels_of_keys, labels_of_reverse_keys, search_stored, stored_labels,
    stored_posting,
};
use mc5_core::bytes::{bytes_equal, bytes_less, push_be, read_be};
use mc5_core::config::{BackendMode, EngineSettings, MangoChainsawConfig};
use mc5_core::docid::{document_id, document_key, node_id};
use mc5_core::errors::McError;
use mc5_core::label::Label;
use mc5_core::names::{bucket_names, find_reserved, is_bucket_name, tree_name_of, TreeKind};
use mc5_core::posting::{
    decode_posting, encode_posting, intersect_postings, posting_contains, retract_posting,
    upsert_posting,
};

fn label(k: &str, v: &str) -> Label {
    Label::new(k, v).unwrap()
}

#[test]
fn a_document_key_is_the_id_in_sixteen_bytes() {
    assert_eq!(
        document_key(0x0102_0304_0506_0708_090a_0b0c_0d0e_0f10),
        vec![1, 2, 3, 4, 5, 6, 7, 8, 9, 10, 11, 12, 13, 14, 15, 16]
    );
    assert_eq!(document_key(0), vec![0; 16]);
    assert_eq!(document_key(u128::MAX), vec![0xff; 16]);
    assert_eq!(document_key(258)[14..], [1, 2]);
}

#[test]
fn a_document_key_is_read_back() {
    for id in [0u128, 1, 255, 256, 0xdead_beef, u128::MAX, 1 << 127] {
        assert_eq!(document_id(&document_key(id)), Some(id));
    }
    assert_eq!(document_id(&[0; 15]), None);
    assert_eq!(document_id(&[0; 17]), None);
    assert_eq!(document_id(&[]), None);
}

#[test]
fn document_keys_are_ordered_as_the_ids() {
    let ids = [0u128, 1, 255, 256, 65_535, 65_536, 1 << 64, (1 << 64) + 1, u128::MAX];
    for a in ids {
        for b in ids {
            assert_eq!(bytes_less(&document_key(a), &document_key(b)), a < b);
            assert_eq!(bytes_equal(&document_key(a), &document_key(b)), a == b);
        }
    }
}

#[test]
fn the_node_of_an_id_skips_two_bytes_of_the_counter() {
    assert_eq!(node_id(0x0102_0304_0506_0708), [1, 2, 3, 4, 5, 8]);
    assert_eq!(node_id(0), [0; 6]);
    assert_eq!(node_id(7), [0, 0, 0, 0, 0, 7]);
    assert_eq!(node_id(u64::MAX), [0xff; 6]);
    assert_eq!(node_id(0x0000_0000_0000_ff00), [0, 0, 0, 0, 0, 0]);
}

#[test]
fn numbers_are_written_most_significant_byte_first() {
    let mut out = vec![9u8];
    push_be(&mut out, 0x0102, 4);
    assert_eq!(out, vec![9, 0, 0, 1, 2]);
    push_be(&mut out, 0x0102, 1);
    assert_eq!(out, vec![9, 0, 0, 1, 2, 2]);
    push_be(&mut out, 7, 0);
    assert_eq!(out.len(), 6);
    assert_eq!(read_be(&[1, 2]), 258);
    assert_eq!(read_be(&[]), 0);
    assert_eq!(read_be(&[0xff; 16]), u128::MAX);
}

#[test]
fn byte_strings_are_ordered_lexicographically() {
    assert!(bytes_less(b"", b"a"));
    assert!(bytes_less(b"a", b"ab"));
    assert!(bytes_less(b"ab", b"b"));
    assert!(!bytes_less(b"b", b"ab"));
    assert!(!bytes_less(b"a", b"a"));
    assert!(!bytes_less(b"", b""));
    assert!(bytes_less(&[1, 255], &[2]));
    assert!(bytes_equal(b"abc", b"abc"));
    assert!(!bytes_equal(b"abc", b"abd"));
    assert!(!bytes_equal(b"abc", b"ab"));
}

#[test]
fn a_posting_list_is_stored_as_the_keys_of_its_ids() {
    assert_eq!(encode_posting(&vec![]), Vec::<u8>::new());
    let mut expected = vec![0u8; 32];
    expected[15] = 1;
    expected[30] = 1;
    expected[31] = 2;
    assert_eq!(encode_posting(&vec![1, 258]), expected);
}

#[test]
fn a_stored_posting_list_is_read_back() {
    for ids in [vec![], vec![7u128], vec![1, 2, 3], vec![u128::MAX, 0, 5, 5]] {
        assert_eq!(decode_posting(&encode_posting(&ids)), Some(ids));
    }
    assert_eq!(decode_posting(&[0; 15]), None);
    assert_eq!(decode_posting(&[0; 17]), None);
    assert_eq!(decode_posting(&[0; 16]), Some(vec![0]));
}

#[test]
fn upsert_adds_an_id_once_and_sorts() {
    assert_eq!(upsert_posting(vec![], 5), vec![5]);
    assert_eq!(upsert_posting(vec![1, 9], 5), vec![1, 5, 9]);
    assert_eq!(upsert_posting(vec![1, 5, 9], 5), vec![1, 5, 9]);
    assert_eq!(upsert_posting(vec![9, 1, 9], 0), vec![0, 1, 9]);
    assert_eq!(upsert_posting(vec![1, 2], u128::MAX), vec![1, 2, u128::MAX]);
}

#[test]
fn retract_takes_out_whole_ids_only() {
    assert_eq!(retract_posting(&vec![1, 5, 9], 5), vec![1, 9]);
    assert_eq!(retract_posting(&vec![5], 5), Vec::<u128>::new());
    assert_eq!(retract_posting(&vec![1, 9], 5), vec![1, 9]);
    assert_eq!(retract_posting(&vec![5, 1, 5], 5), vec![1]);
    // ids that agree with the retracted one in one half only stay
    let id = (7u128 << 64) | 3;
    let same_high = (7u128 << 64) | 4;
    let same_low = (8u128 << 64) | 3;
    assert_eq!(retract_posting(&vec![same_high, id, same_low], id), vec![same_high, same_low]);
    assert!(posting_contains(&vec![1, 5], 5));
    assert!(!posting_contains(&vec![1, 5], 4));
}

#[test]
fn intersection_keeps_what_all_lists_hold() {
    assert_eq!(intersect_postings(&vec![]), Vec::<u128>::new());
    assert_eq!(intersect_postings(&vec![vec![3, 1, 3]]), vec![1, 3]);
    assert_eq!(intersect_postings(&vec![vec![1, 2, 3], vec![2, 3, 4], vec![3, 2]]), vec![2, 3]);
    assert_eq!(intersect_postings(&vec![vec![1, 2], vec![]]), Vec::<u128>::new());
    assert_eq!(intersect_postings(&vec![vec![], vec![1]]), Vec::<u128>::new());
}

#[test]
fn a_search_reads_the_entries_of_its_labels() {
    let a = encode_posting(&vec![1, 2, 3]);
    let b = encode_posting(&vec![2, 3, 4]);
    assert_eq!(search_stored(&vec![Some(a.clone()), Some(b.clone())]), Ok(vec![2, 3]));
    assert_eq!(search_stored(&vec![Some(a.clone()), None]), Ok(vec![]));
    assert_eq!(search_stored(&vec![]), Ok(vec![]));
    assert_eq!(search_stored(&vec![Some(a.clone())]), Ok(vec![1, 2, 3]));
    assert_eq!(search_stored(&vec![Some(a), Some(vec![1, 2, 3])]), Err(McError::Codec));
}

#[test]
fn stored_values_are_decoded_or_reported() {
    assert_eq!(stored_posting(None), Ok(None));
    assert_eq!(stored_posting(Some(encode_posting(&vec![4, 2]))), Ok(Some(vec![4, 2])));
    assert_eq!(stored_posting(Some(vec![1])), Err(McError::Codec));
    assert_eq!(stored_labels(None), Ok(None));
    assert_eq!(stored_labels(Some(b"k=v\xff".to_vec())), Ok(Some(vec![label("k", "v")])));
    assert_eq!(stored_labels(Some(b"k=v".to_vec())), Err(McError::Codec));
}

#[test]
fn an_answer_of_the_engine_is_passed_on() {
    assert_eq!(engine_answer(Ok::<u8, sled::Error>(3)), Ok(3));
    assert_eq!(
        engine_answer(Err::<u8, sled::Error>(sled::Error::Unsupported("no".to_string()))),
        Err(McError::Engine)
    );
}

#[test]
fn index_keys_are_read_as_labels() {
    assert_eq!(
        labels_of_keys(&vec![b"a=1".to_vec(), b"b=x=y".to_vec()]),
        Ok(vec![label("a", "1"), label("b", "x=y")])
    );
    assert_eq!(labels_of_keys(&vec![]), Ok(vec![]));
    assert_eq!(labels_of_keys(&vec![b"a=1".to_vec(), b"b".to_vec()]), Err(McError::InvalidLabel));
    assert_eq!(labels_of_keys(&vec![vec![0xff], b"b".to_vec()]), Err(McError::Format));
    assert_eq!(
        labels_of_reverse_keys(&vec![b"1=a".to_vec(), b"x=y=b".to_vec()]),
        Ok(vec![label("a", "1"), label("b", "x=y")])
    );
    assert_eq!(labels_of_reverse_keys(&vec![b"b".to_vec()]), Err(McError::InvalidLabel));
    assert_eq!(labels_of_reverse_keys(&vec![vec![b'a', b'=', 0xff]]), Err(McError::Format));
}

#[test]
fn tree_names_are_bucket_two_colons_and_kind() {
    assert_eq!(tree_name_of("b", TreeKind::Doc), b"b::doc".to_vec());
    assert_eq!(tree_name_of("b", TreeKind::Labels), b"b::labels".to_vec());
    assert_eq!(tree_name_of("b", TreeKind::Kev), b"b::kev".to_vec());
    assert_eq!(tree_name_of("", TreeKind::Vek), b"::vek".to_vec());
}

#[test]
fn two_colons_are_reserved() {
    assert!(is_bucket_name("bucket"));
    assert!(is_bucket_name("a:b:c"));
    assert!(is_bucket_name(""));
    assert!(!is_bucket_name("a::b"));
    assert!(!is_bucket_name("::"));
    assert!(!is_bucket_name("a:::"));
    assert_eq!(find_reserved(b"ab::cd::ef"), Some(2));
    assert_eq!(find_reserved(b"a:b"), None);
    assert_eq!(find_reserved(b":"), None);
    assert_eq!(find_reserved(b":::"), Some(0));
}

#[test]
fn buckets_are_found_in_tree_names() {
    let names = vec![
        b"zed::doc".to_vec(),
        b"__sled__default".to_vec(),
        b"abc::kev".to_vec(),
        b"zed::vek".to_vec(),
        b"abc::doc::more".to_vec(),
        b"::labels".to_vec(),
    ];
    assert_eq!(
        bucket_names(&names),
        Ok(vec!["".to_string(), "abc".to_string(), "zed".to_string()])
    );
    assert_eq!(bucket_names(&vec![]), Ok(vec![]));
    assert_eq!(bucket_names(&vec![b"a::doc".to_vec(), vec![0xff, b':', b':']]), Err(McError::Format));
}

#[test]
fn the_default_settings_are_for_a_store_that_is_thrown_away() {
    let c = MangoChainsawConfig::default();
    assert!(c.temporary);
    assert_eq!(c.data_path, "");
    assert_eq!(c.backend_mode, BackendMode::Fast);
    assert_eq!(c.idgen_interval, 420_069);
    assert_eq!(c.compression_factor, 3);
}

#[test]
fn the_engine_is_given_a_level_only_where_compression_is_on() {
    let mut c = MangoChainsawConfig::default();
    assert_eq!(
        c.engine_settings(),
        EngineSettings {
            temporary: true,
            low_space: false,
            idgen_interval: 420_069,
            use_compression: true,
            compression_level: 3,
        }
    );
    c.compression_factor = 0;
    c.backend_mode = BackendMode::Small;
    c.temporary = false;
    c.idgen_interval = 5;
    assert_eq!(
        c.engine_settings(),
        EngineSettings {
            temporary: false,
            low_space: true,
            idgen_interval: 5,
            use_compression: false,
            compression_level: 1,
        }
    );
    c.compression_factor = -4;
    assert_eq!(c.engine_settings().compression_level, 1);
    assert!(!c.engine_settings().use_compression);
}

#[test]
fn every_error_has_its_message() {
    assert_eq!(McError::Codec.message(), "a stored value could not be decoded");
    assert_eq!(McError::Engine.message(), "the storage engine failed");
    assert_eq!(McError::InvalidLabel.message(), "invalid label");
    assert_eq!(McError::InvalidBucketName.message(), "invalid bucket name");
    assert_eq!(McError::Format.message(), "index key is not UTF-8");
}
