use ros2dds_routes::json::{remove_null_qos_values, Json, Member};

fn member(name: &str, value: Json) -> Member {
    Member { name: name.to_string(), value }
}

fn entity(qos: Json) -> Json {
    Json::Object(vec![
        member("key", Json::Text("ab".to_string())),
        member("type_info", Json::Null),
        member("qos", qos),
    ])
}

#[test]
fn null_policies_are_removed_and_nothing_else() {
    let given = entity(Json::Object(vec![
        member("durability", Json::Null),
        member("history", Json::Object(vec![member("depth", Json::Null)])),
        member("liveliness", Json::Null),
        member("keyless", Json::Bool(true)),
    ]));
    let expected = entity(Json::Object(vec![
        member("history", Json::Object(vec![member("depth", Json::Null)])),
        member("keyless", Json::Bool(true)),
    ]));
    let once = remove_null_qos_values(Ok::<Json, String>(given)).unwrap();
    assert_eq!(once, expected);
    assert_eq!(remove_null_qos_values(Ok::<Json, String>(once)).unwrap(), expected);
}

#[test]
fn other_values_are_left_alone() {
    let same = |json: Json, again: Json| {
        assert_eq!(remove_null_qos_values(Ok::<Json, String>(json)).unwrap(), again);
    };
    same(entity(Json::Null), entity(Json::Null));
    same(entity(Json::Number("3".to_string())), entity(Json::Number("3".to_string())));
    same(Json::Null, Json::Null);
    same(Json::Array(vec![Json::Null]), Json::Array(vec![Json::Null]));
    same(
        Json::Object(vec![member("a", Json::Null)]),
        Json::Object(vec![member("a", Json::Null)]),
    );
}

#[test]
fn errors_are_handed_on() {
    assert_eq!(remove_null_qos_values(Err::<Json, &str>("bad")).unwrap_err(), "bad");
}
