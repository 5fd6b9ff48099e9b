use synonyms::domain::Word;
use synonyms::request_handling::{classify, JsonValue, ServiceError};

fn entry(category: &str, synonyms: &str) -> JsonValue {
    JsonValue::Object(vec![(
        "list".to_string(),
        JsonValue::Object(vec![
            ("category".to_string(), JsonValue::Text(category.to_string())),
            ("synonyms".to_string(), JsonValue::Text(synonyms.to_string())),
        ]),
    )])
}

#[test]
fn correctly_report_errors() {
    let payload = JsonValue::Object(vec![
        ("error".to_string(), JsonValue::Text("no word".to_string())),
        ("response".to_string(), JsonValue::Array(vec![entry("(adj)", "a (x)")])),
    ]);
    let result = classify(&payload);
    assert_eq!(result.unwrap_err(), ServiceError::Reported("no word".to_string()));
}

#[test]
fn correctly_get_results() {
    let payload = JsonValue::Object(vec![(
        "response".to_string(),
        JsonValue::Array(vec![
            entry("(noun)", "car (vehicle)"),
            entry("(adj)", "potential|latent (similar term)"),
        ]),
    )]);
    let groups = classify(&payload).unwrap();
    assert_eq!(groups.len(), 2);
    assert_eq!(&groups[0].category, "noun");
    assert_eq!(groups[0].words, vec![Word::new("car".to_string(), "vehicle".to_string())]);
    assert_eq!(&groups[1].category, "adj");
    assert_eq!(
        groups[1].words,
        vec![
            Word::new("potential".to_string(), "similar term".to_string()),
            Word::new("latent".to_string(), "similar term".to_string()),
        ]
    );
}

#[test]
fn missing_response_is_malformed() {
    let payload = JsonValue::Object(vec![]);
    assert_eq!(classify(&payload).unwrap_err(), ServiceError::MalformedResponse);
}

#[test]
fn non_object_payload_is_malformed() {
    let payload = JsonValue::Text("surprise".to_string());
    assert_eq!(classify(&payload).unwrap_err(), ServiceError::MalformedResponse);
}

#[test]
fn non_text_error_is_malformed() {
    let payload = JsonValue::Object(vec![("error".to_string(), JsonValue::Number)]);
    assert_eq!(classify(&payload).unwrap_err(), ServiceError::MalformedResponse);
}

#[test]
fn badly_shaped_entry_is_malformed() {
    let payload = JsonValue::Object(vec![(
        "response".to_string(),
        JsonValue::Array(vec![entry("(noun)", "car (vehicle)"), JsonValue::Null]),
    )]);
    assert_eq!(classify(&payload).unwrap_err(), ServiceError::MalformedResponse);
}

#[test]
fn entry_missing_synonyms_is_malformed() {
    let payload = JsonValue::Object(vec![(
        "response".to_string(),
        JsonValue::Array(vec![JsonValue::Object(vec![(
            "list".to_string(),
            JsonValue::Object(vec![(
                "category".to_string(),
                JsonValue::Text("(noun)".to_string()),
            )]),
        )])]),
    )]);
    assert_eq!(classify(&payload).unwrap_err(), ServiceError::MalformedResponse);
}

#[test]
fn empty_response_array_yields_no_groups() {
    let payload = JsonValue::Object(vec![("response".to_string(), JsonValue::Array(vec![]))]);
    let groups = classify(&payload).unwrap();
    assert_eq!(groups.len(), 0);
}
