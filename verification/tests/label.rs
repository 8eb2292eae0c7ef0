use mc5_core::errors::McError;
use mc5_core::label::Label;
use mc5_core::label_set::{decode_labels, encode_labels, DocumentLabelSet};
use mc5_core::order::{insert_sorted, sort_dedup, Sortable};

fn label(k: &str, v: &str) -> Label {
    Label::new(k, v).unwrap()
}

#[test]
fn a_label_keeps_its_key_and_value() {
    let l = label("tls.a", "up");
    assert_eq!(l.key(), "tls.a");
    assert_eq!(l.value(), "up");
    assert!(l.is_well_formed());
}

#[test]
fn a_key_with_the_separator_is_refused() {
    assert_eq!(Label::new("a=b", "c"), Err(McError::InvalidLabel));
    assert_eq!(Label::new("=", ""), Err(McError::InvalidLabel));
    assert!(Label::new("", "").is_ok());
    assert!(Label::new("a", "b=c").is_ok());
}

#[test]
fn the_forward_form_is_key_separator_value() {
    assert_eq!(label("k", "v").as_bytes(), b"k=v".to_vec());
    assert_eq!(label("", "").as_bytes(), b"=".to_vec());
    assert_eq!(label("a", "b=c").as_bytes(), b"a=b=c".to_vec());
    assert_eq!(label("k\u{e9}", "\u{4e2d}").as_bytes(), "k\u{e9}=\u{4e2d}".as_bytes().to_vec());
}

#[test]
fn the_reverse_form_is_value_separator_key() {
    assert_eq!(label("k", "v").as_bytes_rev(), b"v=k".to_vec());
    assert_eq!(label("a", "b=c").as_bytes_rev(), b"b=c=a".to_vec());
}

#[test]
fn a_label_is_shown_as_its_forward_form() {
    assert_eq!(label("k", "v").to_text(), "k=v");
    assert_eq!(label("tls.a", "status: up").to_text(), "tls.a=status: up");
    assert_eq!(label("\u{e9}", "a=b").to_text(), "\u{e9}=a=b");
}

#[test]
fn swap_exchanges_key_and_value() {
    let mut l = label("k", "v");
    l.swap_key_value();
    assert_eq!(l.key(), "v");
    assert_eq!(l.value(), "k");
    let mut odd = label("k", "a=b");
    odd.swap_key_value();
    assert_eq!(odd.key(), "a=b");
    assert!(!odd.is_well_formed());
}

#[test]
fn from_bytes_splits_at_the_first_separator() {
    assert_eq!(Label::from_bytes(b"k=v"), Ok(label("k", "v")));
    assert_eq!(Label::from_bytes(b"a=b=c"), Ok(label("a", "b=c")));
    assert_eq!(Label::from_bytes(b"="), Ok(label("", "")));
    assert_eq!(Label::from_bytes(b"k="), Ok(label("k", "")));
}

#[test]
fn from_bytes_rev_splits_at_the_last_separator() {
    assert_eq!(Label::from_bytes_rev(b"v=k"), Ok(label("k", "v")));
    assert_eq!(Label::from_bytes_rev(b"b=c=a"), Ok(label("a", "b=c")));
    assert_eq!(Label::from_bytes_rev(b"="), Ok(label("", "")));
}

#[test]
fn from_bytes_tells_bad_text_from_a_missing_separator() {
    assert_eq!(Label::from_bytes(&[0xff, b'=', b'v']), Err(McError::Format));
    assert_eq!(Label::from_bytes(&[b'k', b'=', 0xc3]), Err(McError::Format));
    assert_eq!(Label::from_bytes(b"kv"), Err(McError::InvalidLabel));
    assert_eq!(Label::from_bytes(b""), Err(McError::InvalidLabel));
    assert_eq!(Label::from_bytes_rev(&[0xff]), Err(McError::Format));
    assert_eq!(Label::from_bytes_rev(b"kv"), Err(McError::InvalidLabel));
}

#[test]
fn both_forms_are_read_back() {
    for (k, v) in [("k", "v"), ("", "x"), ("tls.a", "status: up"), ("a", "b=c=d"), ("\u{e9}", "")] {
        let l = label(k, v);
        assert_eq!(Label::from_bytes(&l.as_bytes()), Ok(l.clone()));
        assert_eq!(Label::from_bytes_rev(&l.as_bytes_rev()), Ok(l.clone()));
        assert_eq!(l.duplicate(), l);
        assert!(l.same_as(&l.duplicate()));
    }
}

#[test]
fn labels_are_ordered_by_key_then_value() {
    assert!(label("a", "z").less(&label("b", "a")));
    assert!(label("a", "1").less(&label("a", "2")));
    assert!(!label("a", "1").less(&label("a", "1")));
    assert!(label("a", "x").less(&label("a!", "x")));
    assert!(label("", "").less(&label("", "a")));
    assert!(!label("b", "a").less(&label("a", "z")));
    assert_eq!(label("a", "1").less(&label("a!", "0")), label("a", "1") < label("a!", "0"));
}

#[test]
fn sort_dedup_sorts_and_drops_duplicates() {
    assert_eq!(sort_dedup(vec![3u128, 1, 2, 3, 1]), vec![1, 2, 3]);
    assert_eq!(sort_dedup(Vec::<u128>::new()), Vec::<u128>::new());
    assert_eq!(
        sort_dedup(vec!["b".to_string(), "a".to_string(), "b".to_string(), "".to_string()]),
        vec!["".to_string(), "a".to_string(), "b".to_string()]
    );
    let mut v = vec![1u128, 5, 9];
    insert_sorted(&mut v, 7);
    insert_sorted(&mut v, 5);
    insert_sorted(&mut v, 0);
    insert_sorted(&mut v, 10);
    assert_eq!(v, vec![0, 1, 5, 7, 9, 10]);
}

#[test]
fn a_label_set_is_sorted_and_free_of_duplicates() {
    let set = DocumentLabelSet::new(vec![label("b", "2"), label("a", "9"), label("b", "2"), label("a", "1")])
        .ok()
        .unwrap();
    assert_eq!(set.len(), 3);
    assert_eq!(set.to_vec(), vec![label("a", "1"), label("a", "9"), label("b", "2")]);
    assert_eq!(set.get(1), Some(&label("a", "9")));
    assert_eq!(set.get(3), None);
    assert!(set.contains(&label("b", "2")));
    assert!(!set.contains(&label("b", "3")));
}

#[test]
fn a_label_set_refuses_malformed_labels() {
    let mut bad = label("k", "a=b");
    bad.swap_key_value();
    assert!(matches!(DocumentLabelSet::new(vec![label("a", "b"), bad]), Err(McError::InvalidLabel)));
}

#[test]
fn label_sets_are_merged_and_subtracted() {
    let one = DocumentLabelSet::new(vec![label("a", "1"), label("c", "3")]).ok().unwrap();
    let two = DocumentLabelSet::new(vec![label("b", "2"), label("c", "3")]).ok().unwrap();
    assert_eq!(one.merged(&two).to_vec(), vec![label("a", "1"), label("b", "2"), label("c", "3")]);
    assert_eq!(one.without(&two).to_vec(), vec![label("a", "1")]);
    assert_eq!(two.without(&one).to_vec(), vec![label("b", "2")]);
    assert_eq!(one.without(&one).to_vec(), Vec::<Label>::new());
    assert_eq!(one.merged(&one).to_vec(), one.to_vec());
}

#[test]
fn a_stored_label_set_closes_each_forward_form() {
    let set = DocumentLabelSet::new(vec![label("k", "v2"), label("k", "v1")]).ok().unwrap();
    assert_eq!(set.encode(), b"k=v1\xffk=v2\xff".to_vec());
    assert_eq!(encode_labels(&vec![]), Vec::<u8>::new());
    assert_eq!(encode_labels(&vec![label("", "")]), b"=\xff".to_vec());
}

#[test]
fn a_stored_label_set_is_read_back() {
    assert_eq!(decode_labels(b"k=v1\xffk=v2\xff"), Some(vec![label("k", "v1"), label("k", "v2")]));
    assert_eq!(decode_labels(b""), Some(vec![]));
    assert_eq!(decode_labels(b"b=1\xffa=2\xff"), Some(vec![label("b", "1"), label("a", "2")]));
    let set = DocumentLabelSet::decode(b"b=1\xffa=2\xffb=1\xff").unwrap();
    assert_eq!(set.to_vec(), vec![label("a", "2"), label("b", "1")]);
    let labels = vec![label("x", "y=z"), label("\u{e9}", "\u{4e2d}")];
    assert_eq!(decode_labels(&encode_labels(&labels)), Some(labels));
}

#[test]
fn a_broken_stored_label_set_is_not_read() {
    assert_eq!(decode_labels(b"k=v"), None);
    assert_eq!(decode_labels(b"k=v\xffk"), None);
    assert_eq!(decode_labels(b"kv\xff"), None);
    assert_eq!(decode_labels(b"\xff"), None);
    assert_eq!(decode_labels(b"k=\xc3\xff"), None);
    assert!(DocumentLabelSet::decode(b"k=v").is_none());
}
