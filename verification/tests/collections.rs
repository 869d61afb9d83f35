use fiducia_brain::ids::{IdMap, IdSet};
use fiducia_brain::json::Json;
use fiducia_brain::shards::ShardMap;
use fiducia_brain::text::{
    copy_texts, from_chars, text_before, text_eq, texts_contain, texts_eq, to_chars,
};

#[test]
fn maps_keep_their_keys_in_order() {
    let mut m: IdMap<u64> = IdMap::new();
    for (i, k) in ["b", "a", "c", "b"].iter().enumerate() {
        m.insert(k.to_string(), i as u64);
    }
    assert_eq!(m.len(), 3);
    let keys: Vec<&str> = (0..m.len()).map(|i| m.key_at(i).as_str()).collect();
    assert_eq!(keys, vec!["a", "b", "c"]);
    assert_eq!(m.get("b"), Some(&3), "the latest value counts");
    assert_eq!(*m.value_at(0), 1);
    assert!(m.contains("c"));
    assert_eq!(m.remove("c"), Some(2));
    assert_eq!(m.remove("c"), None);
    assert_eq!(m.get("c"), None);
    assert_eq!(m.copy().get("a"), Some(&1));
}

#[test]
fn sets_hold_a_member_once() {
    let mut s = IdSet::new();
    for k in ["b", "a", "b"] {
        s.insert(k.to_string());
    }
    assert_eq!(s.len(), 2);
    assert!(s.contains("a"));
    assert!(!s.contains("c"));
    assert_eq!(s.listed(), vec!["a", "b"]);
    assert_eq!(s.copy().len(), 2);
}

#[test]
fn shard_maps_keep_shards_in_order() {
    let mut m: ShardMap<u64> = ShardMap::new();
    m.insert(7, 1);
    m.insert(2, 2);
    m.insert(7, 3);
    assert_eq!(m.len(), 2);
    assert_eq!(*m.value_at(0), 2);
    assert_eq!(m.get(7), Some(&3));
    assert_eq!(m.get(1), None);
}

#[test]
fn texts_compare_by_their_characters() {
    assert!(text_eq("ünï", "ünï"));
    assert!(!text_eq("a", "ab"));
    assert!(text_before("", "a"));
    assert!(text_before("a", "ab"));
    assert!(text_before("ab", "b"));
    assert!(!text_before("b", "ab"));
    assert!(!text_before("a", "a"));
    assert!(text_before("z", "é"));
    assert_eq!(from_chars(&to_chars("naïve ☃")), "naïve ☃");
    let v = vec!["x".to_string(), "y".to_string()];
    assert!(texts_contain(&v, "y"));
    assert!(!texts_contain(&v, "z"));
    assert!(texts_eq(&v, &copy_texts(&v)));
    assert!(!texts_eq(&v, &vec!["x".to_string()]));
}

#[test]
fn documents_answer_for_their_members() {
    let doc = Json::Object(vec![
        ("a".to_string(), Json::Unsigned(4)),
        ("b".to_string(), Json::Array(vec![Json::Text("t".to_string())])),
        ("c".to_string(), Json::Signed(-1)),
        ("d".to_string(), Json::Float("1.5".to_string())),
    ]);
    assert_eq!(doc.member("a").as_unsigned(), Some(4));
    assert_eq!(doc.member("c").as_unsigned(), None);
    assert_eq!(doc.member("d").as_text(), None);
    assert!(matches!(doc.member("nothing"), Json::Null));
    assert!(matches!(doc.member("a").member("x"), Json::Null));
    let items = doc.member("b").as_array().unwrap();
    assert_eq!(items[0].as_text().map(|t| t.as_str()), Some("t"));
    assert!(doc.member("a").as_array().is_none());
    assert_eq!(doc.clone().member("a").as_unsigned(), Some(4));
}
