use httpx_urls::error::{EncodingError, ImmutableContainerError};
use httpx_urls::pairs::same_pairs;
use httpx_urls::query_params::{
    primitive_value_to_str, Primitive, QueryError, QueryParams, QuerySource, QueryValue,
};

fn q(s: &str) -> QueryParams {
    QueryParams::from_query_string(s)
}

fn pair(k: &str, v: &str) -> (String, String) {
    (k.to_string(), v.to_string())
}

fn pairs(items: &[(&str, &str)]) -> Vec<(String, String)> {
    items.iter().map(|(k, v)| pair(k, v)).collect()
}

fn strings(items: &[&str]) -> Vec<String> {
    items.iter().map(|s| s.to_string()).collect()
}

fn text(s: &str) -> Primitive {
    Primitive::Text(s.to_string())
}

#[test]
fn equality_ignores_the_order() {
    assert_eq!(q("a=1&b=2"), q("b=2&a=1"));
    assert_ne!(q("a=1&b=2").to_string(), q("b=2&a=1").to_string());
    assert_eq!(q("a=1&b=2").to_string(), "a=1&b=2");
    assert_eq!(q("b=2&a=1").to_string(), "b=2&a=1");
}

#[test]
fn equality_ignores_the_order_of_values() {
    assert_eq!(q("a=1&a=2"), q("a=2&a=1"));
}

#[test]
fn equality_counts_how_often_a_pair_occurs() {
    assert_ne!(q("a=1&a=1"), q("a=1"));
    assert_ne!(q("a=1"), q("a=1&a=1"));
    assert_ne!(q("a=1&b=2"), q("a=1&b=3"));
    assert_ne!(q("a=1"), q(""));
    assert_eq!(q(""), QueryParams::empty());
}

#[test]
fn pairs_round_trip() {
    let built = QueryParams::from_pairs(&pairs(&[("a", "1"), ("a", "2"), ("b", "3")]));
    assert_eq!(built.multi_items(), pairs(&[("a", "1"), ("a", "2"), ("b", "3")]));
    assert_eq!(built.get_list("a"), strings(&["1", "2"]));
    assert_eq!(built.values(), strings(&["1", "3"]));
}

#[test]
fn pairs_are_grouped_by_key() {
    let built = QueryParams::from_pairs(&pairs(&[("a", "1"), ("b", "3"), ("a", "2")]));
    assert_eq!(built.multi_items(), pairs(&[("a", "1"), ("a", "2"), ("b", "3")]));
    assert_eq!(built.keys(), strings(&["a", "b"]));
    assert_eq!(built.items(), pairs(&[("a", "1"), ("b", "3")]));
    assert_eq!(built.len(), 2);
}

#[test]
fn merge_overwrites_the_values_of_a_key() {
    let merged = q("a=1&a=2").merge(Some(&QuerySource::Instance(q("a=9")))).unwrap();
    assert_eq!(merged.get_list("a"), strings(&["9"]));
}

#[test]
fn merge_keeps_the_place_of_a_key_and_adds_new_keys_last() {
    let merged = q("a=1&b=2&c=3").merge(Some(&QuerySource::Text("d=4&b=5&b=6".to_string()))).unwrap();
    assert_eq!(merged.multi_items(), pairs(&[("a", "1"), ("b", "5"), ("b", "6"), ("c", "3"), ("d", "4")]));
}

#[test]
fn merge_without_a_source_copies() {
    let receiver = q("a=1&b=2");
    let merged = receiver.merge(None).unwrap();
    assert_eq!(merged.multi_items(), receiver.multi_items());
}

#[test]
fn merge_fails_on_bytes_that_are_not_utf8() {
    assert_eq!(q("a=1").merge(Some(&QuerySource::Bytes(vec![0x61, 0xff]))).err(), Some(EncodingError {}));
}

#[test]
fn mutators_leave_the_receiver_as_it_was() {
    let receiver = q("a=1&a=2&b=3");
    let before = receiver.multi_items();
    let _ = receiver.set("a".to_string(), &text("9"));
    assert_eq!(receiver.multi_items(), before);
    let _ = receiver.add("a", &text("9"));
    assert_eq!(receiver.multi_items(), before);
    let _ = receiver.remove("a");
    assert_eq!(receiver.multi_items(), before);
    let _ = receiver.merge(Some(&QuerySource::Text("a=7&c=8".to_string())));
    assert_eq!(receiver.multi_items(), before);
    let _ = receiver.clone().set("b".to_string(), &text("0"));
    assert_eq!(receiver.multi_items(), before);
}

#[test]
fn query_string_of_nothing_is_empty() {
    assert_eq!(q("").len(), 0);
    assert!(q("").is_empty());
    assert_eq!(q("").to_string(), "");
    assert_eq!(q("").multi_items(), pairs(&[]));
}

#[test]
fn query_string_without_equals_sign_gives_an_empty_value() {
    assert_eq!(q("a").multi_items(), pairs(&[("a", "")]));
    assert_eq!(q("a&b=1").multi_items(), pairs(&[("a", ""), ("b", "1")]));
    assert_eq!(q("a=").multi_items(), pairs(&[("a", "")]));
}

#[test]
fn query_string_drops_a_piece_with_two_equals_signs() {
    assert_eq!(q("a=1&b=2=3&c=4").multi_items(), pairs(&[("a", "1"), ("c", "4")]));
    assert_eq!(q("a==").len(), 0);
}

#[test]
fn query_string_keeps_empty_pieces_as_the_empty_key() {
    assert_eq!(q("a=1&&b=2").multi_items(), pairs(&[("a", "1"), ("", ""), ("b", "2")]));
    assert_eq!(q("&").multi_items(), pairs(&[("", ""), ("", "")]));
    assert_eq!(q("=1").multi_items(), pairs(&[("", "1")]));
}

#[test]
fn query_string_is_not_decoded() {
    assert_eq!(q("a%20b=c+d").multi_items(), pairs(&[("a%20b", "c+d")]));
}

#[test]
fn keys_are_in_first_seen_order() {
    assert_eq!(q("b=1&a=2&b=3&c=4").keys(), strings(&["b", "a", "c"]));
}

#[test]
fn a_key_with_an_empty_sequence_is_left_out() {
    let keyed = QueryParams::from_keyed(&vec![
        ("a".to_string(), QueryValue::Many(vec![])),
        ("b".to_string(), QueryValue::Many(vec![text("1"), text("2")])),
    ]);
    assert_eq!(keyed.keys(), strings(&["b"]));
    assert_eq!(keyed.values(), strings(&["1"]));
    assert_eq!(keyed.items(), pairs(&[("b", "1")]));
    assert_eq!(keyed.multi_items(), pairs(&[("b", "1"), ("b", "2")]));
    assert_eq!(keyed.len(), 1);
    assert!(!keyed.contains("a"));
    assert_eq!(keyed.get("a", Some("x".to_string())), Some("x".to_string()));
    assert_eq!(keyed.get_item("a"), None);
}

#[test]
fn an_empty_sequence_changes_no_key() {
    let keyed = QueryParams::from_keyed(&vec![
        ("a".to_string(), QueryValue::Single(text("1"))),
        ("a".to_string(), QueryValue::Many(vec![])),
    ]);
    assert_eq!(keyed.multi_items(), pairs(&[("a", "1")]));
    let source = QuerySource::Keyed(vec![("a".to_string(), QueryValue::Many(vec![]))]);
    assert_eq!(q("a=1&b=2").merge(Some(&source)).unwrap().multi_items(), pairs(&[("a", "1"), ("b", "2")]));
    let one = vec![source];
    assert_eq!(QueryParams::new(&one, None).unwrap().len(), 0);
}

#[test]
fn every_key_has_a_value() {
    let keyed = vec![
        ("a".to_string(), QueryValue::Many(vec![])),
        ("b".to_string(), QueryValue::Single(Primitive::Null)),
        ("c".to_string(), QueryValue::Many(vec![text("1")])),
    ];
    let all = [
        q("a=1&b&&c=2=3"),
        QueryParams::from_keyed(&keyed),
        QueryParams::new(&vec![], Some(&keyed)).unwrap(),
        q("a=1").merge(Some(&QuerySource::Keyed(keyed.clone()))).unwrap(),
        q("a=1&b=2").remove("a").add("c", &Primitive::Null).set("d".to_string(), &text("")),
    ];
    for params in all {
        assert_eq!(params.keys().len(), params.values().len());
        assert_eq!(params.keys().len(), params.items().len());
        for key in params.keys() {
            assert!(!params.get_list(&key).is_empty());
        }
    }
}

#[test]
fn keyed_items_overwrite_earlier_ones_of_the_same_key() {
    let keyed = QueryParams::from_keyed(&vec![
        ("a".to_string(), QueryValue::Single(text("1"))),
        ("b".to_string(), QueryValue::Single(Primitive::Bool(true))),
        ("a".to_string(), QueryValue::Many(vec![Primitive::Null, Primitive::Bool(false)])),
    ]);
    assert_eq!(keyed.multi_items(), pairs(&[("a", ""), ("a", "false"), ("b", "true")]));
}

#[test]
fn primitives_have_their_string_form() {
    assert_eq!(primitive_value_to_str(&Primitive::Bool(true)), "true");
    assert_eq!(primitive_value_to_str(&Primitive::Bool(false)), "false");
    assert_eq!(primitive_value_to_str(&Primitive::Null), "");
    assert_eq!(primitive_value_to_str(&text("1.5")), "1.5");
}

#[test]
fn get_returns_the_first_value_or_the_default() {
    let params = q("a=1&a=2");
    assert_eq!(params.get("a", None), Some("1".to_string()));
    assert_eq!(params.get("a", Some("x".to_string())), Some("1".to_string()));
    assert_eq!(params.get("b", Some("x".to_string())), Some("x".to_string()));
    assert_eq!(params.get("b", None), None);
    assert_eq!(params.get_item("a"), Some("1".to_string()));
    assert_eq!(params.get_item("b"), None);
}

#[test]
fn get_list_of_an_absent_key_is_empty() {
    assert_eq!(q("a=1").get_list("b"), strings(&[]));
}

#[test]
fn set_replaces_all_values_of_a_key() {
    let changed = q("a=1&a=2&b=3").set("a".to_string(), &text("9"));
    assert_eq!(changed.multi_items(), pairs(&[("a", "9"), ("b", "3")]));
    let grown = q("a=1").set("b".to_string(), &Primitive::Bool(true));
    assert_eq!(grown.multi_items(), pairs(&[("a", "1"), ("b", "true")]));
}

#[test]
fn add_appends_a_value() {
    let changed = q("a=1&b=3").add("a", &text("2"));
    assert_eq!(changed.multi_items(), pairs(&[("a", "1"), ("a", "2"), ("b", "3")]));
    let grown = q("a=1").add("b", &Primitive::Null);
    assert_eq!(grown.multi_items(), pairs(&[("a", "1"), ("b", "")]));
}

#[test]
fn remove_takes_a_key_out_and_keeps_the_order() {
    let changed = q("a=1&b=2&a=3&c=4").remove("b");
    assert_eq!(changed.multi_items(), pairs(&[("a", "1"), ("a", "3"), ("c", "4")]));
    assert_eq!(q("a=1").remove("b").multi_items(), pairs(&[("a", "1")]));
    assert!(!q("a=1&b=2").remove("a").contains("a"));
}

#[test]
fn canonical_string_encodes_keys_and_values() {
    let built = QueryParams::from_pairs(&pairs(&[("a b", "c&d"), ("é", "="), ("a b", "~")]));
    assert_eq!(built.to_string(), "a+b=c%26d&a+b=~&%C3%A9=%3D");
}

#[test]
fn repr_wraps_the_canonical_string() {
    assert_eq!(q("a=1&b=2").repr(), "QueryParams('a=1&b=2')");
    assert_eq!(q("").repr(), "QueryParams('')");
}

#[test]
fn new_takes_at_most_one_source() {
    let two = vec![QuerySource::Nothing, QuerySource::Nothing];
    assert_eq!(QueryParams::new(&two, None).err(), Some(QueryError::TooManyArguments));
}

#[test]
fn new_prefers_the_source_to_the_keyed_items() {
    let one = vec![QuerySource::Text("a=1".to_string())];
    let keyed = vec![("b".to_string(), QueryValue::Single(text("2")))];
    assert_eq!(QueryParams::new(&one, Some(&keyed)).unwrap().multi_items(), pairs(&[("a", "1")]));
    assert_eq!(QueryParams::new(&vec![], Some(&keyed)).unwrap().multi_items(), pairs(&[("b", "2")]));
    assert_eq!(QueryParams::new(&vec![], None).unwrap().len(), 0);
}

#[test]
fn new_reads_every_kind_of_source() {
    let from = |source: QuerySource| QueryParams::new(&vec![source], None).map(|p| p.multi_items());
    assert_eq!(from(QuerySource::Nothing), Ok(pairs(&[])));
    assert_eq!(from(QuerySource::Instance(q("a=1&a=2"))), Ok(pairs(&[("a", "1"), ("a", "2")])));
    assert_eq!(from(QuerySource::Text("a=1".to_string())), Ok(pairs(&[("a", "1")])));
    assert_eq!(from(QuerySource::Bytes("é=1".as_bytes().to_vec())), Ok(pairs(&[("é", "1")])));
    assert_eq!(from(QuerySource::Bytes(vec![0xc3])), Err(QueryError::Encoding(EncodingError {})));
    assert_eq!(from(QuerySource::Pairs(pairs(&[("a", "1"), ("b", "2"), ("a", "3")]))), Ok(pairs(&[("a", "1"), ("a", "3"), ("b", "2")])));
    assert_eq!(
        from(QuerySource::Keyed(vec![("a".to_string(), QueryValue::Many(vec![text("1"), text("2")]))])),
        Ok(pairs(&[("a", "1"), ("a", "2")]))
    );
}

#[test]
fn update_is_refused() {
    assert_eq!(
        q("a=1").update(None).err(),
        Some(ImmutableContainerError {
            message: "QueryParams are immutable since 0.18.0.  Use `q = q.merge(...)` to create an updated copy."
                .to_string()
        })
    );
}

#[test]
fn set_item_is_refused() {
    assert_eq!(
        q("a=1").set_item("a".to_string(), "2".to_string()),
        Err(ImmutableContainerError {
            message: "QueryParams are immutable since 0.18.0. Use `q = q.set(key, value)` to create an updated copy."
                .to_string()
        })
    );
}

#[test]
fn iteration_yields_the_keys_in_order() {
    let mut keys = q("b=1&a=2&b=3").iter();
    assert_eq!(keys.next(), Some("b".to_string()));
    assert_eq!(keys.next(), Some("a".to_string()));
    assert_eq!(keys.next(), None);
    assert_eq!(keys.next(), None);
}

#[test]
fn same_pairs_compares_as_multisets() {
    assert!(same_pairs(&pairs(&[("a", "1"), ("b", "2"), ("a", "1")]), pairs(&[("a", "1"), ("a", "1"), ("b", "2")])));
    assert!(!same_pairs(&pairs(&[("a", "1"), ("b", "2"), ("a", "1")]), pairs(&[("a", "1"), ("b", "2"), ("b", "2")])));
    assert!(!same_pairs(&pairs(&[("a", "1")]), pairs(&[("a", "1"), ("a", "1")])));
    assert!(same_pairs(&pairs(&[]), pairs(&[])));
    assert!(!same_pairs(&pairs(&[("ab", "c")]), pairs(&[("a", "bc")])));
}
