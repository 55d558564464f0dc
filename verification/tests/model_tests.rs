use sink::model::{Item, ItemHeader, ItemSummary};

fn empty_summary() -> ItemSummary {
    ItemSummary {
        id: 0,
        system: None,
        item_type: None,
        event_id: None,
        entity_event_id: None,
        user_agent: None,
        submit_date: String::new(),
    }
}

#[test]
fn test_item_content_type() {
    const CONTENT_TYPE_VALUE: &[u8] = b"text";

    let headers = vec![
        ItemHeader::new("header", b"value"),
        ItemHeader::new("content-type", CONTENT_TYPE_VALUE),
    ];

    let item = Item { summary: empty_summary(), headers, body: Vec::new() };

    assert_eq!(item.content_type().map(|v| v.as_slice()), Some(CONTENT_TYPE_VALUE));
}

#[test]
fn test_item_content_type_missing() {
    let headers = vec![ItemHeader::new("header", b"value")];
    let item = Item { summary: empty_summary(), headers, body: Vec::new() };
    assert!(item.content_type().is_none());
}

#[test]
fn test_item_x_response_headers() {
    const X_HEADER_NAME_1: &str = "header-1";
    const X_HEADER_VALUE_1: &[u8] = b"value-1";
    const X_HEADER_NAME_2: &str = "header-2";
    const X_HEADER_VALUE_2: &[u8] = b"value-2";

    let headers = vec![
        ItemHeader::new("header", b"value"),
        ItemHeader::new(&format!("x-response-header-{X_HEADER_NAME_1}"), X_HEADER_VALUE_1),
        ItemHeader::new(&format!("x-response-header-{X_HEADER_NAME_2}"), X_HEADER_VALUE_2),
    ];

    let item = Item { summary: empty_summary(), headers, body: Vec::new() };

    let x_headers = item.x_response_headers();

    assert_eq!(x_headers.len(), 2);
    assert_eq!(x_headers[0].name, X_HEADER_NAME_1);
    assert_eq!(x_headers[0].value, X_HEADER_VALUE_1);
    assert_eq!(x_headers[1].name, X_HEADER_NAME_2);
    assert_eq!(x_headers[1].value, X_HEADER_VALUE_2);
}

#[test]
fn test_is_mgs_system_header() {
    assert!(ItemHeader::new("mgs-system-id", b"x").is_mgs_system_header());
    assert!(ItemHeader::new("mgssystem", b"x").is_mgs_system_header());
    assert!(!ItemHeader::new("mgs-event-id", b"x").is_mgs_system_header());
}
