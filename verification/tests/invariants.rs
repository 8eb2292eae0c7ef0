use mc5_core::config::{BackendMode, MangoChainsawConfig};
use mc5_core::docid::{document_id, document_key};
use mc5_core::label::Label;
use mc5_core::label_set::decode_labels;
use mc5_core::mango::MangoChainsaw;
use mc5_core::posting::decode_posting;
use std::collections::BTreeMap;
use std::time::{SystemTime, UNIX_EPOCH};

fn settings_at(tag: &str) -> MangoChainsawConfig {
    let now = SystemTime::now().duration_since(UNIX_EPOCH).unwrap().as_nanos();
    MangoChainsawConfig {
        temporary: false,
        data_path: format!("/tmp/mc5_core_inv_{}_{}", tag, now),
        backend_mode: BackendMode::Fast,
        idgen_interval: 1000,
        compression_factor: 0,
    }
}

fn label(k: &str, v: &str) -> Label {
    Label::new(k, v).unwrap()
}

fn entries(db: &sled::Db, name: &str) -> BTreeMap<Vec<u8>, Vec<u8>> {
    let tree = db.open_tree(name.as_bytes()).unwrap();
    let mut all = BTreeMap::new();
    for item in tree.iter() {
        let (k, v) = item.unwrap();
        all.insert(k.to_vec(), v.to_vec());
    }
    all
}

fn strictly_increasing<T: Ord>(items: &[T]) -> bool {
    items.windows(2).all(|w| w[0] < w[1])
}

/// Checks the four trees of the bucket `b` against each other, and hands back
/// the number of documents and of posting lists.
fn check_trees(path: &str) -> (usize, usize) {
    let db = sled::Config::new().path(path).temporary(true).open().unwrap();
    let doc = entries(&db, "b::doc");
    let labels = entries(&db, "b::labels");
    let kev = entries(&db, "b::kev");
    let vek = entries(&db, "b::vek");

    // a document is there exactly when its label set is
    assert_eq!(doc.keys().collect::<Vec<_>>(), labels.keys().collect::<Vec<_>>());

    for (key, stored) in &labels {
        let id = document_id(key).unwrap();
        let set = decode_labels(stored).unwrap();
        assert!(strictly_increasing(&set));
        for l in &set {
            assert!(l.is_well_formed());
            let forward = decode_posting(&kev[&l.as_bytes()]).unwrap();
            assert!(forward.contains(&id));
            let reverse = decode_posting(&vek[&l.as_bytes_rev()]).unwrap();
            assert!(reverse.contains(&id));
        }
    }
    for (key, stored) in &kev {
        let l = Label::from_bytes(key).unwrap();
        let ids = decode_posting(stored).unwrap();
        assert!(!ids.is_empty());
        assert!(strictly_increasing(&ids));
        for id in &ids {
            let set = decode_labels(&labels[&document_key(*id)]).unwrap();
            assert!(set.contains(&l));
        }
        // the two indexes hold the same list for a label
        assert_eq!(vek.get(&l.as_bytes_rev()), Some(stored));
    }
    for (key, stored) in &vek {
        let l = Label::from_bytes_rev(key).unwrap();
        let ids = decode_posting(stored).unwrap();
        assert!(!ids.is_empty());
        assert!(strictly_increasing(&ids));
        assert_eq!(kev.get(&l.as_bytes()), Some(stored));
    }
    (doc.len(), kev.len())
}

#[test]
fn the_trees_agree_after_inserts() {
    let config = settings_at("inserts");
    {
        let db = MangoChainsaw::new(config.to_sled_config()).unwrap();
        let bucket = db.get_bucket("b").unwrap();
        for n in 0..20u8 {
            let labels = vec![
                label("all", "x"),
                label("mod3", &(n % 3).to_string()),
                label("n", &n.to_string()),
                label("eq", "a=b"),
            ];
            bucket.insert(vec![n], labels).unwrap();
        }
    }
    assert_eq!(check_trees(&config.data_path), (20, 25));
}

#[test]
fn the_trees_agree_after_mixed_changes() {
    let config = settings_at("mixed");
    let mut kept = 0;
    {
        let db = MangoChainsaw::new(config.to_sled_config()).unwrap();
        let bucket = db.get_bucket("b").unwrap();
        let mut ids: Vec<u128> = Vec::new();
        let mut seed: u64 = 12345;
        for step in 0..120u32 {
            seed = seed.wrapping_mul(6364136223846793005).wrapping_add(1442695040888963407);
            let pick = (seed >> 33) as usize;
            let a = label("a", &(pick % 4).to_string());
            let b = label(&format!("b{}", pick % 3), "y");
            match pick % 5 {
                0 | 1 => {
                    ids.push(bucket.insert(vec![step as u8], vec![a, b.clone(), b]).unwrap());
                    kept += 1;
                }
                2 => {
                    if !ids.is_empty() {
                        let id = ids.remove(pick % ids.len());
                        assert!(bucket.delete(id).unwrap().is_some());
                        kept -= 1;
                    }
                }
                3 => {
                    if !ids.is_empty() {
                        bucket.add_document_labels(ids[pick % ids.len()], vec![a, b]).unwrap();
                    }
                }
                _ => {
                    if !ids.is_empty() {
                        bucket.remove_document_labels(ids[pick % ids.len()], vec![a, b]).unwrap();
                    }
                }
            }
        }
        // changes of documents that are not there leave no trace
        bucket.add_document_labels(1, vec![label("ghost", "x")]).unwrap();
        bucket.remove_document_labels(1, vec![label("a", "0")]).unwrap();
        assert_eq!(bucket.delete(1).unwrap(), None);
    }
    let (docs, _) = check_trees(&config.data_path);
    assert_eq!(docs, kept);
}

#[test]
fn the_trees_are_as_before_after_insert_and_delete() {
    let config = settings_at("undo");
    let path = config.data_path.clone();
    let snapshot = |db: &sled::Db| {
        (entries(db, "b::doc"), entries(db, "b::labels"), entries(db, "b::kev"), entries(db, "b::vek"))
    };
    {
        let db = MangoChainsaw::new(config.to_sled_config()).unwrap();
        let bucket = db.get_bucket("b").unwrap();
        bucket.insert(vec![1], vec![label("t", "a"), label("u", "x")]).unwrap();
        bucket.insert(vec![2], vec![label("t", "a")]).unwrap();
    }
    let before = {
        let db = sled::Config::new().path(&path).open().unwrap();
        let all = snapshot(&db);
        db.flush().unwrap();
        all
    };
    {
        let db = MangoChainsaw::new(config.to_sled_config()).unwrap();
        let bucket = db.get_bucket("b").unwrap();
        let id = bucket.insert(vec![3], vec![label("t", "a"), label("v", "new")]).unwrap();
        assert_eq!(bucket.delete(id).unwrap(), Some(vec![3]));
    }
    let db = sled::Config::new().path(&path).temporary(true).open().unwrap();
    assert_eq!(snapshot(&db), before);
    assert_eq!(before.0.len(), 2);
    assert_eq!(before.2.len(), 2);
}
