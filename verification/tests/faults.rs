use mc5_core::config::{BackendMode, MangoChainsawConfig};
use mc5_core::errors::McError;
use mc5_core::label::Label;
use mc5_core::mango::MangoChainsaw;
use std::time::{SystemTime, UNIX_EPOCH};

fn settings_at(tag: &str, temporary: bool) -> MangoChainsawConfig {
    let now = SystemTime::now().duration_since(UNIX_EPOCH).unwrap().as_nanos();
    MangoChainsawConfig {
        temporary,
        data_path: format!("/tmp/mc5_core_fault_{}_{}", tag, now),
        backend_mode: BackendMode::Small,
        idgen_interval: 1000,
        compression_factor: 0,
    }
}

fn label(k: &str, v: &str) -> Label {
    Label::new(k, v).unwrap()
}

#[test]
fn settings_that_the_engine_refuses_give_an_engine_error() {
    let mut config = settings_at("refused", true);
    config.compression_factor = 30;
    assert!(matches!(MangoChainsaw::new(config.to_sled_config()), Err(McError::Engine)));
    let mut config = settings_at("interval", true);
    config.idgen_interval = 0;
    assert!(matches!(MangoChainsaw::new(config.to_sled_config()), Err(McError::Engine)));
}

#[test]
fn a_broken_posting_list_gives_a_codec_error_and_aborts_the_change() {
    let config = settings_at("codec", false);
    {
        let raw = sled::Config::new().path(&config.data_path).open().unwrap();
        let kev = raw.open_tree(b"b::kev").unwrap();
        kev.insert(b"k=v", vec![1u8, 2, 3]).unwrap();
        raw.flush().unwrap();
    }
    let again = MangoChainsawConfig { temporary: true, ..config };
    let db = MangoChainsaw::new(again.to_sled_config()).unwrap();
    let bucket = db.get_bucket("b").unwrap();
    assert_eq!(bucket.get_label(label("k", "v")), Err(McError::Codec));
    assert_eq!(bucket.search_inclusive(vec![label("k", "v")]), Err(McError::Codec));
    // the insert would have to read the broken list: it is abandoned as a whole
    assert_eq!(
        bucket.insert(vec![1], vec![label("a", "b"), label("k", "v")]),
        Err(McError::Codec)
    );
    assert_eq!(bucket.get_label(label("a", "b")), Ok(None));
    assert_eq!(bucket.label_value_search(""), Ok(vec![]));
    // a change that does not touch the broken list goes through
    let id = bucket.insert(vec![2], vec![label("a", "b")]).unwrap();
    assert_eq!(bucket.get_label(label("a", "b")), Ok(Some(vec![id])));
    assert_eq!(bucket.add_document_labels(id, vec![label("k", "v")]), Err(McError::Codec));
    assert_eq!(bucket.get_document_labels(id), Ok(Some(vec![label("a", "b")])));
}

#[test]
fn a_broken_label_set_gives_a_codec_error() {
    let config = settings_at("labels", false);
    let key: Vec<u8> = mc5_core::docid::document_key(77);
    {
        let raw = sled::Config::new().path(&config.data_path).open().unwrap();
        let labels = raw.open_tree(b"b::labels").unwrap();
        labels.insert(key.clone(), b"no terminator".to_vec()).unwrap();
        let docs = raw.open_tree(b"b::doc").unwrap();
        docs.insert(key, vec![9u8]).unwrap();
        raw.flush().unwrap();
    }
    let again = MangoChainsawConfig { temporary: true, ..config };
    let db = MangoChainsaw::new(again.to_sled_config()).unwrap();
    let bucket = db.get_bucket("b").unwrap();
    assert_eq!(bucket.get_document_labels(77), Err(McError::Codec));
    assert_eq!(bucket.delete(77), Err(McError::Codec));
    assert_eq!(bucket.get(77), Ok(Some(vec![9])));
    assert_eq!(bucket.remove_document_labels(77, vec![label("a", "b")]), Err(McError::Codec));
}

#[test]
fn an_index_key_that_is_no_label_is_reported() {
    let config = settings_at("keys", false);
    {
        let raw = sled::Config::new().path(&config.data_path).open().unwrap();
        let kev = raw.open_tree(b"b::kev").unwrap();
        kev.insert(vec![0xffu8, b'=', b'v'], vec![0u8; 16]).unwrap();
        kev.insert(b"plain".to_vec(), vec![0u8; 16]).unwrap();
        raw.open_tree(vec![0xffu8, b':', b':', b'x']).unwrap();
        raw.flush().unwrap();
    }
    let again = MangoChainsawConfig { temporary: true, ..config };
    let db = MangoChainsaw::new(again.to_sled_config()).unwrap();
    let bucket = db.get_bucket("b").unwrap();
    assert_eq!(bucket.label_name_search("pl"), Err(McError::InvalidLabel));
    assert_eq!(bucket.label_name_search(""), Err(McError::InvalidLabel));
    assert_eq!(db.list_buckets(), Err(McError::Format));
}
