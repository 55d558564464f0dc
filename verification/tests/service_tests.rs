use sink::model::{ItemFilter, NewItem, NewItemHeader};
use sink::service::new_service;
use sink::store::Repository;

fn empty_filter() -> ItemFilter {
    ItemFilter {
        query: None,
        system: None,
        item_type: None,
        event_type: None,
        from: None,
        to: None,
        asc: None,
        first_item_id: None,
        last_item_id: None,
        batch_size: None,
        load_first_item: None,
    }
}

fn fixture() -> Repository {
    let mut repo = Repository::new();
    let systems: [Option<&str>; 5] =
        [None, Some("system-1"), Some("system-2"), None, None];
    for (i, system) in systems.iter().enumerate() {
        repo.set_now(&format!("2025-01-0{}", i + 1));
        repo.insert_item(&NewItem {
            system: system.map(str::to_string),
            item_type: None,
            event_id: None,
            entity_event_id: None,
            user_agent: None,
            headers: Vec::new(),
            body: format!("body-{}", i + 1).into_bytes(),
        });
    }
    repo
}

#[test]
fn test_get_item() {
    let service = new_service(fixture());

    let item = service.get_item(1);
    assert_eq!(item.map(|item| item.summary.id), Some(1));

    let item = service.get_item(0);
    assert!(item.is_none());
}

#[test]
fn service_test_get_items() {
    let cases: &[(Option<bool>, &[i64], i32, Option<i64>)] = &[
        (None, &[5, 4, 3, 2, 1], 5, None),
        (Some(true), &[5, 4, 3, 2, 1], 5, Some(5)),
    ];

    let service = new_service(fixture());

    for (load_first_item, expected_item_ids, expected_total_items, expected_first_item_id) in
        cases
    {
        let mut filter = empty_filter();
        filter.load_first_item = *load_first_item;

        let result = service.get_items(&filter).unwrap();
        let item_ids: Vec<i64> = result.items.iter().map(|item| item.id).collect();

        assert_eq!(&item_ids, expected_item_ids);
        assert_eq!(result.total_items, *expected_total_items);
        assert_eq!(result.systems, &["system-1", "system-2"]);
        assert_eq!(
            result.first_item.map(|item| item.summary.id),
            *expected_first_item_id
        );
    }
}

#[test]
fn test_save_item() {
    const BODY: &[u8] = br#"{"entityEventId": 567}"#;
    const EVENT_ID: i64 = 123;
    const SYSTEM: &str = "system";
    const USER_AGENT: &str = "user-agent";

    let mut service = new_service(Repository::new());
    service.set_now("2025-03-04 05:06:07");

    let id = service.save_item(
        &[
            NewItemHeader {
                name: "mgs-event-id".to_string(),
                value: EVENT_ID.to_string().into_bytes(),
            },
            NewItemHeader { name: "mgs-system-id".to_string(), value: SYSTEM.as_bytes().to_vec() },
            NewItemHeader { name: "user-agent".to_string(), value: USER_AGENT.as_bytes().to_vec() },
        ],
        BODY,
    );

    let item = service.get_item(id).unwrap();
    let summary = item.summary;

    assert_eq!(id, 1);
    assert_eq!(id, summary.id);
    assert_eq!(Some(SYSTEM), summary.system.as_deref());
    assert_eq!(Some("event_notification"), summary.item_type.as_deref());
    assert_eq!(Some(EVENT_ID), summary.event_id);
    assert_eq!(Some(567), summary.entity_event_id);
    assert_eq!(Some(USER_AGENT), summary.user_agent.as_deref());

    assert_eq!(
        vec!["mgs-event-id", "mgs-system-id", "user-agent"],
        item.headers.into_iter().map(|header| header.name).collect::<Vec<String>>()
    );

    assert_eq!(BODY, item.body);
}
