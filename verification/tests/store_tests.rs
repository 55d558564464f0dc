use sink::model::{ItemFilter, ItemSummary, NewItem, NewItemHeader};
use sink::store::Repository;

fn empty_filter() -> ItemFilter {
    ItemFilter {
        query: None,
        system: None,
        item_type: None,
        event_type: None,
        from: None,
        to: None,
        asc: None,
        first_item_id: None,
        last_item_id: None,
        batch_size: None,
        load_first_item: None,
    }
}

fn parse_filter(s: &str) -> ItemFilter {
    let mut f = empty_filter();
    if s.is_empty() {
        return f;
    }
    for pair in s.split('&') {
        let (key, raw) = match pair.split_once('=') {
            Some(kv) => kv,
            None => (pair, ""),
        };
        let value = raw.replace("%20", " ").replace('+', " ");
        match key {
            "query" => f.query = Some(value),
            "system" => f.system = Some(value),
            "type" => f.item_type = Some(value),
            "eventType" => f.event_type = Some(value),
            "from" => f.from = Some(value),
            "to" => f.to = Some(value),
            "asc" => f.asc = Some(value == "true"),
            "firstItemId" => f.first_item_id = Some(value.parse().unwrap()),
            "lastItemId" => f.last_item_id = Some(value.parse().unwrap()),
            "batchSize" => f.batch_size = Some(value.parse().unwrap()),
            "loadFirstItem" => f.load_first_item = Some(value == "true"),
            other => panic!("unknown filter key {other}"),
        }
    }
    f
}

fn header(name: &str, value: &[u8]) -> NewItemHeader {
    NewItemHeader { name: name.to_string(), value: value.to_vec() }
}

fn new_item(
    system: Option<&str>,
    item_type: Option<&str>,
    event_id: Option<i64>,
    entity_event_id: Option<i64>,
    headers: Vec<NewItemHeader>,
    body: &[u8],
) -> NewItem {
    NewItem {
        system: system.map(str::to_string),
        item_type: item_type.map(str::to_string),
        event_id,
        entity_event_id,
        user_agent: None,
        headers,
        body: body.to_vec(),
    }
}

fn fixture() -> Repository {
    let mut repo = Repository::new();

    repo.set_now("2025-01-01");
    repo.insert_item(&new_item(
        None,
        Some("event_notification"),
        Some(1),
        None,
        vec![header("header-1", b"value-1"), header("header-2", b"value-2")],
        b"body-1",
    ));

    repo.set_now("2025-01-02");
    repo.insert_item(&new_item(
        Some("system-1"),
        Some("type-2"),
        None,
        None,
        vec![header("header-1", b"value-1")],
        b"body-2",
    ));

    repo.set_now("2025-01-03");
    repo.insert_item(&new_item(Some("system-2"), Some("type-1"), None, None, Vec::new(), b"id:5"));

    repo.set_now("2025-01-04");
    repo.insert_item(&new_item(
        None,
        Some("event_payload"),
        None,
        Some(1),
        Vec::new(),
        b"body-4",
    ));

    repo.set_now("2025-01-05");
    repo.insert_item(&new_item(
        None,
        Some("event_payload"),
        None,
        Some(2),
        Vec::new(),
        b"body-5",
    ));

    repo
}

#[test]
fn test_get_item_nonexistent() {
    let repository = Repository::new();
    let item = repository.get_item(0);
    assert!(item.is_none());
}

#[test]
fn repository_test_get_items() {
    let cases: &[(&str, &[i64], i32)] = &[
        ("", &[5, 4, 3, 2, 1], 5),
        ("query=event-id:1", &[1], 1),
        ("query=header-1:value-1", &[2, 1], 2),
        ("query=header-1:value-1%20header-2:value-2", &[1], 1),
        ("query=id:5", &[5], 1),
        ("query=body:id:5", &[3], 1),
        ("query=regex:body-[12]", &[2, 1], 2),
        ("query=body-1", &[1], 1),
        ("system=system-1", &[2], 1),
        ("system=system-1,system-2", &[3, 2], 2),
        ("system=system-xxx", &[], 0),
        ("type=type-1", &[3], 1),
        ("type=type-1,type-2", &[3, 2], 2),
        ("type=type-xxx", &[], 0),
        ("eventType=1", &[4, 3, 2], 3),
        ("eventType=1,2", &[5, 4, 3, 2], 4),
        ("eventType=1&type=event_payload", &[4], 1),
        ("eventType=1,2&type=event_payload", &[5, 4], 2),
        ("from=2025-01-02", &[5, 4, 3, 2], 4),
        ("to=2025-01-02", &[2, 1], 2),
        ("firstItemId=2", &[5, 4, 3, 2], 5),
        ("lastItemId=2", &[2, 1], 5),
        ("asc=true", &[1, 2, 3, 4, 5], 5),
        ("asc=false", &[5, 4, 3, 2, 1], 5),
        ("batchSize=1", &[5], 5),
        ("batchSize=2", &[5, 4], 5),
        ("batchSize=3", &[5, 4, 3], 5),
    ];

    let repository = fixture();

    for (filter, expected_item_ids, expected_total_items) in cases {
        let f = parse_filter(filter);
        let (items, total_items) = repository.get_items(&f).unwrap();
        let item_ids: Vec<i64> = items.iter().map(|item| item.id).collect();

        assert_eq!(&item_ids, expected_item_ids, "filter = {filter}");
        assert_eq!(total_items, *expected_total_items, "filter = {filter}");
    }
}

#[test]
fn test_get_items_invalid_regex() {
    let repository = fixture();
    let f = parse_filter("query=regex:(");
    assert!(repository.get_items(&f).is_err());
}

#[test]
fn test_get_systems() {
    let repository = fixture();
    let systems = repository.get_systems();
    assert_eq!(systems, &["system-1", "system-2"]);
}

#[test]
fn test_insert_and_get_item() {
    const SYSTEM: Option<&str> = Some("system");
    const TYPE: Option<&str> = Some("type");
    const EVENT_ID: Option<i64> = Some(123);
    const ENTITY_EVENT_ID: Option<i64> = Some(456);
    const USER_AGENT: Option<&str> = Some("user-agent");
    const HEADER_1_NAME: &str = "header-1";
    const HEADER_1_VALUE: &[u8] = b"value-1";
    const HEADER_2_NAME: &str = "header-2";
    const HEADER_2_VALUE: &[u8] = b"value-2";
    const BODY: &[u8] = b"body";

    let new_item = NewItem {
        system: SYSTEM.map(str::to_string),
        item_type: TYPE.map(str::to_string),
        event_id: EVENT_ID,
        entity_event_id: ENTITY_EVENT_ID,
        user_agent: USER_AGENT.map(str::to_string),
        headers: vec![
            NewItemHeader { name: HEADER_1_NAME.to_string(), value: HEADER_1_VALUE.to_vec() },
            NewItemHeader { name: HEADER_2_NAME.to_string(), value: HEADER_2_VALUE.to_vec() },
        ],
        body: BODY.to_vec(),
    };

    let mut repository = Repository::new();
    repository.set_now("2025-02-03 04:05:06");
    let id = repository.insert_item(&new_item);
    let item = repository.get_item(id).unwrap();

    let summary = item.summary;
    let headers = item.headers;

    assert_eq!(summary.id, id);
    assert_eq!(summary.system.as_deref(), SYSTEM);
    assert_eq!(summary.item_type.as_deref(), TYPE);
    assert_eq!(summary.event_id, EVENT_ID);
    assert_eq!(summary.entity_event_id, ENTITY_EVENT_ID);
    assert_eq!(summary.user_agent.as_deref(), USER_AGENT);
    assert!(!summary.submit_date.is_empty());
    assert_eq!(headers.len(), 2);
    assert_eq!(headers[0].name, HEADER_1_NAME);
    assert_eq!(*headers[0].value, *HEADER_1_VALUE);
    assert_eq!(headers[1].name, HEADER_2_NAME);
    assert_eq!(*headers[1].value, *HEADER_2_VALUE);
    assert_eq!(*item.body, *BODY);
}

#[test]
fn test_get_item_sorts_headers_by_name_then_value() {
    let mut repository = Repository::new();
    repository.set_now("2025-01-01");
    let id = repository.insert_item(&new_item(
        None,
        None,
        None,
        None,
        vec![
            header("zzz", b"1"),
            header("aaa", b"2"),
            header("aaa", b"1"),
            header("mmm", b"x"),
        ],
        b"",
    ));
    let item = repository.get_item(id).unwrap();
    let pairs: Vec<(String, Vec<u8>)> =
        item.headers.into_iter().map(|h| (h.name, h.value)).collect();
    assert_eq!(
        pairs,
        vec![
            ("aaa".to_string(), b"1".to_vec()),
            ("aaa".to_string(), b"2".to_vec()),
            ("mmm".to_string(), b"x".to_vec()),
            ("zzz".to_string(), b"1".to_vec()),
        ]
    );
}

#[test]
fn test_text_match_is_ascii_case_insensitive() {
    let mut repo = Repository::new();
    repo.set_now("2025-01-01");
    repo.insert_item(&new_item(None, None, None, None, Vec::new(), b"Hello WORLD"));

    let (items, total) = repo.get_items(&parse_filter("query=world")).unwrap();
    assert_eq!(items.len(), 1);
    assert_eq!(total, 1);

    let (items, _) = repo.get_items(&parse_filter("query=mars")).unwrap();
    assert!(items.is_empty());
}

#[test]
fn test_non_numeric_id_terms_match_nothing() {
    let repository = fixture();
    let (items, total) = repository.get_items(&parse_filter("query=id:abc")).unwrap();
    assert!(items.is_empty());
    assert_eq!(total, 0);
    let (items, _) = repository.get_items(&parse_filter("query=event-id:abc")).unwrap();
    assert!(items.is_empty());
}

#[test]
fn test_update_item_rewrites_only_derived_metadata() {
    let mut repo = fixture();
    let ok = repo.update_item(&ItemSummary {
        id: 1,
        system: Some("reclassified".to_string()),
        item_type: Some("folder_cl".to_string()),
        event_id: Some(99),
        entity_event_id: Some(100),
        user_agent: Some("agent".to_string()),
        submit_date: "ignored".to_string(),
    });
    assert!(ok);

    let item = repo.get_item(1).unwrap();
    assert_eq!(item.summary.system.as_deref(), Some("reclassified"));
    assert_eq!(item.summary.item_type.as_deref(), Some("folder_cl"));
    assert_eq!(item.summary.event_id, Some(99));
    assert_eq!(item.summary.entity_event_id, Some(100));
    assert_eq!(item.summary.user_agent.as_deref(), Some("agent"));
    // the immutable parts kept their stored values
    assert_eq!(item.summary.submit_date, "2025-01-01");
    assert_eq!(item.body, b"body-1");
    assert_eq!(item.headers.len(), 2);

    // an unknown id changes nothing
    let ok = repo.update_item(&ItemSummary {
        id: 42,
        system: None,
        item_type: None,
        event_id: None,
        entity_event_id: None,
        user_agent: None,
        submit_date: String::new(),
    });
    assert!(!ok);
}

#[test]
fn test_total_ignores_batch_and_id_bounds_but_not_filters() {
    let repository = fixture();
    let f = parse_filter("system=system-1,system-2&batchSize=1&firstItemId=3");
    let (items, total) = repository.get_items(&f).unwrap();
    let ids: Vec<i64> = items.iter().map(|i| i.id).collect();
    assert_eq!(ids, vec![3]);
    assert_eq!(total, 2);
}
