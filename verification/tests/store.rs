use mc5_core::config::{BackendMode, MangoChainsawConfig};
use mc5_core::errors::McError;
use mc5_core::label::Label;
use mc5_core::mango::MangoChainsaw;
use std::time::{SystemTime, UNIX_EPOCH};

fn scratch_path(tag: &str) -> String {
    let now = SystemTime::now().duration_since(UNIX_EPOCH).unwrap().as_nanos();
    format!("/tmp/mc5_core_{}_{}", tag, now)
}

fn settings(tag: &str, temporary: bool) -> MangoChainsawConfig {
    MangoChainsawConfig {
        temporary,
        data_path: scratch_path(tag),
        backend_mode: BackendMode::Fast,
        idgen_interval: 1000,
        compression_factor: 0,
    }
}

fn open(tag: &str) -> MangoChainsaw {
    MangoChainsaw::new(settings(tag, true).to_sled_config()).unwrap()
}

fn label(k: &str, v: &str) -> Label {
    Label::new(k, v).unwrap()
}

#[test]
fn insert_then_get_returns_payload_labels_and_posting() {
    let db = open("insert_get");
    let bucket = db.get_bucket("b").unwrap();
    let id = bucket.insert(vec![0xDE, 0xAD], vec![label("k", "v")]).unwrap();
    assert_eq!(bucket.get(id).unwrap(), Some(vec![0xDE, 0xAD]));
    assert_eq!(bucket.get_document_labels(id).unwrap(), Some(vec![label("k", "v")]));
    assert_eq!(bucket.get_label(label("k", "v")).unwrap(), Some(vec![id]));
}

#[test]
fn search_intersects_posting_lists() {
    let db = open("intersect");
    let bucket = db.get_bucket("b").unwrap();
    let id1 = bucket.insert(vec![1], vec![label("t", "a"), label("u", "x")]).unwrap();
    let id2 = bucket.insert(vec![2], vec![label("t", "a"), label("u", "y")]).unwrap();
    let _id3 = bucket.insert(vec![3], vec![label("t", "b")]).unwrap();
    let mut both = vec![id1, id2];
    both.sort();
    assert_eq!(bucket.search_inclusive(vec![label("t", "a")]).unwrap(), both);
    assert_eq!(
        bucket.search_inclusive(vec![label("t", "a"), label("u", "y")]).unwrap(),
        vec![id2]
    );
    assert_eq!(
        bucket.search_inclusive(vec![label("t", "a"), label("u", "z")]).unwrap(),
        Vec::<u128>::new()
    );
}

#[test]
fn delete_retracts_the_document_everywhere() {
    let db = open("retract");
    let bucket = db.get_bucket("b").unwrap();
    let id1 = bucket.insert(vec![1], vec![label("t", "a"), label("u", "x")]).unwrap();
    let id2 = bucket.insert(vec![2], vec![label("t", "a"), label("u", "y")]).unwrap();
    let _id3 = bucket.insert(vec![3], vec![label("t", "b")]).unwrap();
    assert_eq!(bucket.delete(id1).unwrap(), Some(vec![1]));
    assert_eq!(bucket.get_label(label("u", "x")).unwrap(), None);
    assert_eq!(bucket.get_label(label("t", "a")).unwrap(), Some(vec![id2]));
    assert_eq!(bucket.get_document_labels(id1).unwrap(), None);
    assert_eq!(bucket.get(id1).unwrap(), None);
    assert_eq!(bucket.delete(id1).unwrap(), None);
}

#[test]
fn prefix_scans_find_labels_by_key_and_by_value() {
    let db = open("scans");
    let bucket = db.get_bucket("b").unwrap();
    bucket.insert(vec![7], vec![label("tls.b", "down"), label("tls.a", "up")]).unwrap();
    assert_eq!(
        bucket.label_name_search("tls.").unwrap(),
        vec![label("tls.a", "up"), label("tls.b", "down")]
    );
    assert_eq!(bucket.label_value_search("up").unwrap(), vec![label("tls.a", "up")]);
    assert_eq!(bucket.label_name_search("nothing").unwrap(), Vec::<Label>::new());
}

#[test]
fn value_search_reads_values_that_hold_the_separator() {
    let db = open("scans_sep");
    let bucket = db.get_bucket("b").unwrap();
    bucket.insert(vec![7], vec![label("expr", "a=b")]).unwrap();
    assert_eq!(bucket.label_value_search("a=").unwrap(), vec![label("expr", "a=b")]);
    assert_eq!(bucket.label_name_search("expr").unwrap(), vec![label("expr", "a=b")]);
}

#[test]
fn labels_can_be_added_and_removed() {
    let db = open("relabel");
    let bucket = db.get_bucket("b").unwrap();
    let id = bucket.insert(vec![9], vec![label("k", "v1")]).unwrap();
    bucket.add_document_labels(id, vec![label("k", "v2")]).unwrap();
    assert_eq!(
        bucket.get_document_labels(id).unwrap(),
        Some(vec![label("k", "v1"), label("k", "v2")])
    );
    assert_eq!(bucket.search_inclusive(vec![label("k", "v1")]).unwrap(), vec![id]);
    assert_eq!(bucket.search_inclusive(vec![label("k", "v2")]).unwrap(), vec![id]);
    bucket.remove_document_labels(id, vec![label("k", "v1")]).unwrap();
    assert_eq!(bucket.search_inclusive(vec![label("k", "v1")]).unwrap(), Vec::<u128>::new());
    assert_eq!(bucket.search_inclusive(vec![label("k", "v2")]).unwrap(), vec![id]);
    assert_eq!(bucket.get_document_labels(id).unwrap(), Some(vec![label("k", "v2")]));
}

#[test]
fn adding_or_removing_labels_twice_is_as_once() {
    let db = open("idem");
    let bucket = db.get_bucket("b").unwrap();
    let id = bucket.insert(vec![9], vec![label("k", "v1")]).unwrap();
    let other = bucket.insert(vec![8], vec![label("k", "v2")]).unwrap();
    bucket.add_document_labels(id, vec![label("k", "v2"), label("k", "v2")]).unwrap();
    let labels_once = bucket.get_document_labels(id).unwrap();
    let posting_once = bucket.get_label(label("k", "v2")).unwrap();
    bucket.add_document_labels(id, vec![label("k", "v2")]).unwrap();
    assert_eq!(bucket.get_document_labels(id).unwrap(), labels_once);
    assert_eq!(bucket.get_label(label("k", "v2")).unwrap(), posting_once);
    let mut both = vec![id, other];
    both.sort();
    assert_eq!(posting_once, Some(both));

    bucket.remove_document_labels(id, vec![label("k", "v2")]).unwrap();
    let labels_once = bucket.get_document_labels(id).unwrap();
    let posting_once = bucket.get_label(label("k", "v2")).unwrap();
    bucket.remove_document_labels(id, vec![label("k", "v2")]).unwrap();
    assert_eq!(bucket.get_document_labels(id).unwrap(), labels_once);
    assert_eq!(bucket.get_label(label("k", "v2")).unwrap(), posting_once);
    assert_eq!(posting_once, Some(vec![other]));
    assert_eq!(labels_once, Some(vec![label("k", "v1")]));
}

#[test]
fn labels_of_a_missing_document_are_not_changed() {
    let db = open("gone");
    let bucket = db.get_bucket("b").unwrap();
    bucket.add_document_labels(42, vec![label("k", "v")]).unwrap();
    assert_eq!(bucket.get_label(label("k", "v")).unwrap(), None);
    assert_eq!(bucket.get_document_labels(42).unwrap(), None);
    bucket.remove_document_labels(42, vec![label("k", "v")]).unwrap();
    assert_eq!(bucket.get_label(label("k", "v")).unwrap(), None);
}

#[test]
fn insert_sorts_labels_and_drops_duplicates() {
    let db = open("sorted");
    let bucket = db.get_bucket("b").unwrap();
    let id = bucket
        .insert(vec![1, 2, 3], vec![label("b", "2"), label("a", "9"), label("b", "2"), label("a", "1")])
        .unwrap();
    assert_eq!(
        bucket.get_document_labels(id).unwrap(),
        Some(vec![label("a", "1"), label("a", "9"), label("b", "2")])
    );
    assert_eq!(bucket.get_label(label("b", "2")).unwrap(), Some(vec![id]));
}

#[test]
fn delete_after_insert_leaves_the_bucket_as_it_was() {
    let db = open("undo");
    let bucket = db.get_bucket("b").unwrap();
    let kept = bucket.insert(vec![1], vec![label("t", "a")]).unwrap();
    let id = bucket.insert(vec![2], vec![label("t", "a"), label("u", "x")]).unwrap();
    assert_eq!(bucket.delete(id).unwrap(), Some(vec![2]));
    assert_eq!(bucket.get(id).unwrap(), None);
    assert_eq!(bucket.get_document_labels(id).unwrap(), None);
    assert_eq!(bucket.get_label(label("t", "a")).unwrap(), Some(vec![kept]));
    assert_eq!(bucket.get_label(label("u", "x")).unwrap(), None);
    assert_eq!(bucket.label_name_search("").unwrap(), vec![label("t", "a")]);
    assert_eq!(bucket.label_value_search("").unwrap(), vec![label("t", "a")]);
}

#[test]
fn search_finds_exactly_the_documents_with_all_labels() {
    let db = open("sound");
    let bucket = db.get_bucket("b").unwrap();
    let mut ids = Vec::new();
    for n in 0..12u8 {
        let mut labels = vec![label("all", "yes")];
        if n % 2 == 0 {
            labels.push(label("even", "yes"));
        }
        if n % 3 == 0 {
            labels.push(label("third", "yes"));
        }
        ids.push(bucket.insert(vec![n], labels).unwrap());
    }
    let found = bucket.search_inclusive(vec![label("even", "yes"), label("third", "yes")]).unwrap();
    let mut expected: Vec<u128> = vec![ids[0], ids[6]];
    expected.sort();
    assert_eq!(found, expected);
    for id in &found {
        let labels = bucket.get_document_labels(*id).unwrap().unwrap();
        assert!(labels.contains(&label("even", "yes")));
        assert!(labels.contains(&label("third", "yes")));
    }
    let everyone = bucket.search_inclusive(vec![label("all", "yes")]).unwrap();
    let mut all = ids.clone();
    all.sort();
    assert_eq!(everyone, all);
}

#[test]
fn an_empty_query_finds_nothing() {
    let db = open("empty");
    let bucket = db.get_bucket("b").unwrap();
    bucket.insert(vec![1], vec![label("t", "a")]).unwrap();
    assert_eq!(bucket.search_inclusive(vec![]).unwrap(), Vec::<u128>::new());
}

#[test]
fn get_many_keeps_the_order_of_the_ids() {
    let db = open("many");
    let bucket = db.get_bucket("b").unwrap();
    let a = bucket.insert(vec![1], vec![]).unwrap();
    let b = bucket.insert(vec![2], vec![label("x", "y")]).unwrap();
    assert_eq!(
        bucket.get_many(vec![b, 5, a]).unwrap(),
        vec![(b, Some(vec![2])), (5, None), (a, Some(vec![1]))]
    );
    assert_eq!(bucket.get_many(vec![]).unwrap(), vec![]);
}

#[test]
fn a_copy_of_a_bucket_is_a_handle_to_the_same_bucket() {
    let db = open("copy");
    let bucket = db.get_bucket("b").unwrap();
    let copy = bucket.clone();
    let id = bucket.insert(vec![4], vec![label("k", "v")]).unwrap();
    assert_eq!(copy.name(), "b");
    assert_eq!(copy.get(id).unwrap(), Some(vec![4]));
    assert_eq!(copy.get_document_labels(id).unwrap(), Some(vec![label("k", "v")]));
    assert_eq!(copy.search_inclusive(vec![label("k", "v")]).unwrap(), vec![id]);
    assert_eq!(copy.label_value_search("v").unwrap(), vec![label("k", "v")]);
    assert_eq!(copy.delete(id).unwrap(), Some(vec![4]));
    assert_eq!(bucket.get(id).unwrap(), None);
}

#[test]
fn ids_of_one_store_differ_and_carry_the_counter() {
    let db = open("ids");
    let a = db.next_id().unwrap();
    let b = db.next_id().unwrap();
    assert_ne!(a, b);
    // version 6, and the first five bytes of the node part come from the high
    // bytes of a small counter
    assert_eq!((a >> 76) & 0xF, 6);
    assert_eq!((a >> 8) & 0xFF_FFFF_FFFF, 0);
    assert_eq!((b & 0xFF), (a & 0xFF) + 1);
}

#[test]
fn malformed_labels_are_refused() {
    let db = open("bad");
    let bucket = db.get_bucket("b").unwrap();
    let mut swapped = label("k", "a=b");
    swapped.swap_key_value();
    assert_eq!(bucket.insert(vec![1], vec![swapped.clone()]), Err(McError::InvalidLabel));
    assert_eq!(bucket.search_inclusive(vec![swapped.clone()]), Err(McError::InvalidLabel));
    assert_eq!(bucket.get_label(swapped.clone()), Err(McError::InvalidLabel));
    assert_eq!(bucket.add_document_labels(1, vec![swapped.clone()]), Err(McError::InvalidLabel));
    assert_eq!(bucket.remove_document_labels(1, vec![swapped]), Err(McError::InvalidLabel));
    assert_eq!(bucket.label_name_search("").unwrap(), Vec::<Label>::new());
}

#[test]
fn bucket_names_with_two_colons_are_refused() {
    let db = open("names");
    assert!(matches!(db.get_bucket("a::b"), Err(McError::InvalidBucketName)));
    assert_eq!(db.drop_bucket("a::b"), Err(McError::InvalidBucketName));
    assert!(db.get_bucket("a:b").is_ok());
}

#[test]
fn buckets_are_listed_sorted_and_dropped() {
    let db = open("list");
    let zed = db.get_bucket("zed").unwrap();
    let abc = db.get_bucket("abc").unwrap();
    assert_eq!(zed.name(), "zed");
    zed.insert(vec![1], vec![label("a", "b")]).unwrap();
    abc.insert(vec![2], vec![label("a", "b")]).unwrap();
    assert_eq!(db.list_buckets().unwrap(), vec!["abc".to_string(), "zed".to_string()]);
    db.drop_bucket("zed").unwrap();
    assert_eq!(db.list_buckets().unwrap(), vec!["abc".to_string()]);
    abc.drop_bucket().unwrap();
    assert_eq!(db.list_buckets().unwrap(), Vec::<String>::new());
    abc.drop_bucket().unwrap();
}

#[test]
fn a_listed_bucket_is_what_stands_before_the_first_two_colons() {
    let db = open("colon");
    let odd = db.get_bucket("a:").unwrap();
    assert_eq!(odd.name(), "a:");
    odd.insert(vec![1], vec![label("k", "v")]).unwrap();
    db.get_bucket("b").unwrap();
    assert_eq!(db.list_buckets().unwrap(), vec!["a".to_string(), "b".to_string()]);
}

#[test]
fn buckets_do_not_share_documents() {
    let db = open("apart");
    let one = db.get_bucket("one").unwrap();
    let two = db.get_bucket("two").unwrap();
    let id = one.insert(vec![1], vec![label("a", "b")]).unwrap();
    assert_eq!(two.get(id).unwrap(), None);
    assert_eq!(two.get_label(label("a", "b")).unwrap(), None);
    assert_eq!(two.search_inclusive(vec![label("a", "b")]).unwrap(), Vec::<u128>::new());
}

#[test]
fn a_reopened_store_holds_what_was_committed() {
    let config = settings("reopen", false);
    let mut ids = Vec::new();
    {
        let db = MangoChainsaw::new(config.to_sled_config()).unwrap();
        let bucket = db.get_bucket("b").unwrap();
        for n in 0..5u8 {
            ids.push(bucket.insert(vec![n, n], vec![label("n", &n.to_string()), label("all", "x")]).unwrap());
        }
    }
    {
        // the second handle throws the directory away when it is closed
        let again = MangoChainsawConfig { temporary: true, ..config.clone() };
        let db = MangoChainsaw::new(again.to_sled_config()).unwrap();
        let bucket = db.get_bucket("b").unwrap();
        let mut sorted = ids.clone();
        sorted.sort();
        assert_eq!(bucket.search_inclusive(vec![label("all", "x")]).unwrap(), sorted);
        for (n, id) in ids.iter().enumerate() {
            let n = n as u8;
            assert_eq!(bucket.get(*id).unwrap(), Some(vec![n, n]));
            assert_eq!(
                bucket.get_document_labels(*id).unwrap(),
                Some(vec![label("all", "x"), label("n", &n.to_string())])
            );
            assert_eq!(bucket.get_label(label("n", &n.to_string())).unwrap(), Some(vec![*id]));
        }
        assert_eq!(db.list_buckets().unwrap(), vec!["b".to_string()]);
    }
}

#[test]
fn mango_test_insert_get_scan_delete() {
    let db = open("mango");
    let now = SystemTime::now().duration_since(UNIX_EPOCH).unwrap().as_micros();
    let object: Vec<u8> = format!("{}:{}:{}", now, now % 2 == 0, now).into_bytes();
    let labels = vec![
        label("object_type", "test"),
        label("when", &format!("{now}")),
        label("okay", "maybe?"),
        label("tls.howmuchmeat.com", "status: enabled"),
        label("tls.howmuchmeat.org", "status: down"),
        label("tls.howmuchmeat.dog", "status: disabled"),
        label("tls.howmuchmeat.net", "status: enabled"),
        label("tls.howmuchmeat.cat", "status: up"),
    ];

    let bucket = db.get_bucket("testing_objects").unwrap();
    let id = bucket.insert(object.clone(), labels).unwrap();
    println!("{id}");

    let ids = bucket
        .search_inclusive(vec![label("object_type", "test"), label("okay", "maybe?")])
        .unwrap();
    println!("{ids:?}");

    let got = bucket.get(ids[0]).unwrap().expect("Oops");
    assert_eq!(object, got);

    let labels = bucket.get_document_labels(id).unwrap().expect("oops");
    println!("{labels:?}");
    assert_eq!(labels.len(), 8);

    let label_prefix = bucket.label_name_search("tls").unwrap();
    println!("{label_prefix:?}");
    assert_eq!(label_prefix.len(), 5);

    let label_suffix = bucket.label_value_search("status: enabled").unwrap();
    println!("{label_suffix:?}");
    assert_eq!(
        label_suffix,
        vec![
            label("tls.howmuchmeat.com", "status: enabled"),
            label("tls.howmuchmeat.net", "status: enabled")
        ]
    );

    let deleted = bucket.delete(ids[0]).unwrap().expect("oopsie");
    assert_eq!(object, deleted);

    let buckets = db.list_buckets().unwrap();
    println!("{buckets:?}");
    assert_eq!(buckets, vec!["testing_objects".to_string()]);
}

#[test]
fn mc_test_insert_get_scan_delete() {
    let db = open("mc");
    let now = SystemTime::now().duration_since(UNIX_EPOCH).unwrap().as_micros();
    let object: Vec<u8> = format!("{}:{}:{}", now, now % 2 == 0, now).into_bytes();
    let labels = vec![
        label("object_type", "test"),
        label("when", &format!("{now}")),
        label("okay", "maybe?"),
        label("tls.howmuchmeat.com", "status: enabled"),
        label("tls.howmuchmeat.org", "status: down"),
        label("tls.howmuchmeat.dog", "status: disabled"),
        label("tls.howmuchmeat.net", "status: enabled"),
        label("tls.howmuchmeat.cat", "status: up"),
    ];

    let bucket = db.get_bucket("testing_objects").unwrap();
    let id = bucket.insert(object.clone(), labels).unwrap();
    println!("{id}");

    let ids = bucket
        .search_inclusive(vec![label("object_type", "test"), label("okay", "maybe?")])
        .unwrap();
    println!("{ids:?}");

    let got = bucket.get(ids[0]).unwrap().expect("Oops");
    assert_eq!(object, got);

    let labels = bucket.get_document_labels(id).unwrap().expect("oops");
    println!("{labels:?}");

    let label_prefix = bucket.label_name_search("tls").unwrap();
    println!("{label_prefix:?}");

    let label_suffix = bucket.label_value_search("status: enabled").unwrap();
    println!("{label_suffix:?}");

    let deleted = bucket.delete(ids[0]).unwrap().expect("oopsie");
    assert_eq!(object, deleted);
}
