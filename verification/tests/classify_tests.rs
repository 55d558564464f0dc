use sink::classify::{entity_event_id_exec, get_event_id, get_user_agent};
use sink::model::NewItemHeader;
use sink::service::new_classifier;

fn header(name: &str, value: &[u8]) -> NewItemHeader {
    NewItemHeader { name: name.to_string(), value: value.to_vec() }
}

#[test]
fn test_get_event_id_no_header() {
    let event_id = get_event_id(&[]);
    assert!(event_id.is_none());
}

#[test]
fn test_get_event_id() {
    assert_eq!(get_event_id(&[header("mgs-event-id", b"123")]), Some(123));
    assert_eq!(get_event_id(&[header("mgs-event-id", b"xxx")]), None);
}

#[test]
fn test_get_user_agent() {
    assert_eq!(get_user_agent(&[]), None);
    assert_eq!(
        get_user_agent(&[header("user-agent", b"curl/8")]),
        Some("curl/8".to_string())
    );
}

#[test]
fn test_get_entity_event_id() {
    assert_eq!(entity_event_id_exec(b""), None);
    assert_eq!(entity_event_id_exec(br#"{"entityEventId": 123}"#), Some(123));
    assert_eq!(entity_event_id_exec(br#"{"entityEventId": abc}"#), None);
    assert_eq!(entity_event_id_exec(br#"{"entityEventId":99,"eventDesc":"x"}"#), Some(99));
}

#[test]
fn test_get_item_type() {
    let cases: &[(&[u8], Option<&str>)] = &[
        (b"", None),
        (br#"{"entityEventId": 123}"#, Some("event_notification")),
        (br#"{"entityEventId": 123, "eventDesc": "abc"}"#, Some("event_payload")),
        (br#"<Folder type="CL">"#, Some("folder_cl")),
        (br#"<createdApplication>"#, Some("application_created")),
        (br#"<Create__CompIntfc__Z_USAS_UPDT_STATUS>"#, Some("status_updated")),
        (br#"<updateStatusRequest>"#, Some("status_updated")),
        (br#"<tns:updatedVacancy>"#, Some("vacancy_updated")),
        (br#"<Folder type="XX">"#, None),
    ];

    let classifier = new_classifier();

    for (body, expected_item_type) in cases {
        let c = classifier.classify(&[], body);
        assert_eq!(c.item_type.as_deref(), *expected_item_type, "body = {body:?}");
    }
}

#[test]
fn test_get_system() {
    let cases: &[(&str, &[u8], &[u8], Option<&str>)] = &[
        ("", b"", b"", None),
        ("mgs-system-id", b"system", b"", Some("system")),
        ("mgssystem", b"system", b"", Some("system")),
        ("", b"", b"<mgsSystem>system</mgsSystem>", Some("system")),
        ("", b"", b"<tns:mgsSystem>deep</tns:mgsSystem>", Some("deep")),
    ];

    let classifier = new_classifier();

    for (header_name, header_value, body, expected_system) in cases {
        let c = classifier.classify(&[header(header_name, header_value)], body);
        assert_eq!(c.system.as_deref(), *expected_system, "body = {body:?}");
    }
}

#[test]
fn test_classification_idempotent() {
    let classifier = new_classifier();
    let headers = [header("mgs-event-id", b"7"), header("user-agent", b"a")];
    let body = br#"<Folder type="CL"><mgsSystem>sys</mgsSystem></Folder>"#;

    let a = classifier.classify(&headers, body);
    let b = classifier.classify(&headers, body);

    assert_eq!(a.system, b.system);
    assert_eq!(a.item_type, b.item_type);
    assert_eq!(a.event_id, b.event_id);
    assert_eq!(a.entity_event_id, b.entity_event_id);
    assert_eq!(a.user_agent, b.user_agent);
}

#[test]
fn test_classify_malformed_xml_is_tolerated() {
    let classifier = new_classifier();
    let c = classifier.classify(&[], b"<Folder typ");
    // the tag is cut short of its attribute: no type is inferred
    assert_eq!(c.item_type, None);
    let c = classifier.classify(&[], b"< <<>> </x> &nonsense");
    assert_eq!(c.item_type, None);
    assert_eq!(c.system, None);
}
