use image_db::weaviate::{
    delete_request, image_object, MultiOperator, Operator, Output, WeaviateBatchDelete,
    WeaviateBatchInput, WeaviateInput, WeaviateMatch, WeaviateWhere, WhereValue,
};

#[test]
fn delete_of_one_id_keeps_or_wrapping() {
    let request = delete_request(&vec!["a".to_string()]);
    assert_eq!(
        request.to_json(),
        "{\"match\":{\"class\":\"ClipImage\",\"where\":{\"operator\":\"Or\",\"operands\":[{\"path\":[\"id\"],\"operator\":\"Equal\",\"valueString\":\"a\"}]}},\"output\":null,\"dryRun\":null}"
    );
    assert_eq!(
        request.match_.where_.to_json(),
        "{\"operator\":\"Or\",\"operands\":[{\"path\":[\"id\"],\"operator\":\"Equal\",\"valueString\":\"a\"}]}"
    );
}

#[test]
fn delete_of_several_ids_and_of_none() {
    let request = delete_request(&vec!["a".to_string(), "b".to_string()]);
    assert_eq!(
        request.match_.where_.to_json(),
        "{\"operator\":\"Or\",\"operands\":[{\"path\":[\"id\"],\"operator\":\"Equal\",\"valueString\":\"a\"},{\"path\":[\"id\"],\"operator\":\"Equal\",\"valueString\":\"b\"}]}"
    );
    let empty = delete_request(&vec![]);
    assert_eq!(empty.match_.where_.to_json(), "{\"operator\":\"Or\",\"operands\":[]}");
}

#[test]
fn upsert_body_holds_one_object_per_entry() {
    let body = WeaviateBatchInput::new(vec![
        image_object("a".to_string(), "QUJD".to_string()),
        image_object("b".to_string(), "REVG".to_string()),
    ]);
    let json = body.to_json();
    let value: serde_json::Value = serde_json::from_str(&json).unwrap();
    let objects = value.get("objects").unwrap().as_array().unwrap();
    assert_eq!(objects.len(), 2);
    assert_eq!(objects[0].get("id").unwrap().as_str(), Some("a"));
    assert_eq!(objects[1].get("id").unwrap().as_str(), Some("b"));
    for o in objects {
        assert!(o.get("properties").unwrap().get("image").is_some());
        assert_eq!(o.get("class").unwrap().as_str(), Some("ClipImage"));
    }
    assert_eq!(objects[0].get("properties").unwrap().get("image").unwrap().as_str(), Some("QUJD"));
}

#[test]
fn upsert_object_text() {
    let o = image_object("x1".to_string(), "Zm9v".to_string());
    assert_eq!(
        o.to_json(),
        "{\"class\":\"ClipImage\",\"vector\":null,\"properties\":{\"image\":\"Zm9v\"},\"id\":\"x1\"}"
    );
    let bare = WeaviateInput::class("C".to_string());
    assert_eq!(bare.to_json(), "{\"class\":\"C\",\"vector\":null,\"properties\":{},\"id\":null}");
    assert_eq!(WeaviateBatchInput::new(vec![]).to_json(), "{\"objects\":[]}");
}

#[test]
fn setting_a_property_twice_replaces_it() {
    let o = WeaviateInput::class("C".to_string())
        .property("k".to_string(), "1".to_string())
        .property("m".to_string(), "2".to_string())
        .property("k".to_string(), "3".to_string());
    assert_eq!(o.properties, vec![("k".to_string(), "3".to_string()), ("m".to_string(), "2".to_string())]);
    assert_eq!(o.id, None);
}

#[test]
fn filter_values_and_operators_serialize() {
    let leaf = |operator, value| WeaviateWhere::Single { path: vec!["n".to_string(), "m".to_string()], operator, value };
    assert_eq!(
        leaf(Operator::GreaterThan, WhereValue::Int(-42)).to_json(),
        "{\"path\":[\"n\",\"m\"],\"operator\":\"GreaterThan\",\"valueInt\":-42}"
    );
    assert_eq!(
        leaf(Operator::NotEqual, WhereValue::Boolean(true)).to_json(),
        "{\"path\":[\"n\",\"m\"],\"operator\":\"NotEqual\",\"valueBoolean\":true}"
    );
    assert_eq!(
        leaf(Operator::Like, WhereValue::Text("say \"hi\"\n".to_string())).to_json(),
        "{\"path\":[\"n\",\"m\"],\"operator\":\"Like\",\"valueText\":\"say \\\"hi\\\"\\n\"}"
    );
    let both = WeaviateWhere::Multiple {
        operator: MultiOperator::And,
        operands: vec![leaf(Operator::WithinGeoRange, WhereValue::Boolean(false))],
    };
    assert_eq!(
        both.to_json(),
        "{\"operator\":\"And\",\"operands\":[{\"path\":[\"n\",\"m\"],\"operator\":\"WithinGeoRange\",\"valueBoolean\":false}]}"
    );
}

#[test]
fn batch_delete_output_and_dry_run() {
    let mut d = WeaviateBatchDelete::new(WeaviateMatch {
        class: "C".to_string(),
        where_: WeaviateWhere::Multiple { operator: MultiOperator::Or, operands: vec![] },
    });
    assert_eq!(d.output, None);
    assert_eq!(d.dry_run, None);
    d.output = Some(Output::Verbose);
    d.dry_run = Some(true);
    assert_eq!(
        d.to_json(),
        "{\"match\":{\"class\":\"C\",\"where\":{\"operator\":\"Or\",\"operands\":[]}},\"output\":\"verbose\",\"dryRun\":true}"
    );
    d.output = Some(Output::Minimal);
    d.dry_run = Some(false);
    assert!(d.to_json().ends_with("\"output\":\"minimal\",\"dryRun\":false}"));
}
