use sink::model::ItemFilter;
use sink::sqlgen::{build_search_sql, SqlParam};

fn empty_filter() -> ItemFilter {
    ItemFilter {
        query: None,
        system: None,
        item_type: None,
        event_type: None,
        from: None,
        to: None,
        asc: None,
        first_item_id: None,
        last_item_id: None,
        batch_size: None,
        load_first_item: None,
    }
}

const HEAD: &str = "SELECT * FROM (SELECT id, system, type, event_id, entity_event_id, \
user_agent, submit_date, COUNT(1) OVER() total_items FROM item WHERE 1 = 1";

#[test]
fn test_sql_unconstrained() {
    let q = build_search_sql(&empty_filter());
    assert_eq!(q.text, format!("{HEAD}) WHERE 1 = 1 ORDER BY id DESC"));
    assert!(q.params.is_empty());
}

#[test]
fn test_sql_all_values_are_bound() {
    let mut f = empty_filter();
    f.query = Some("event-id:1 regex:x' OR 1=1 --".to_string());
    f.system = Some("system-1, system-2".to_string());
    f.item_type = Some("type-1".to_string());
    f.event_type = Some("5".to_string());
    f.from = Some("2025-01-01".to_string());
    f.to = Some("2025-12-31".to_string());
    f.first_item_id = Some(2);
    f.last_item_id = Some(9);
    f.asc = Some(true);
    f.batch_size = Some(7);

    let q = build_search_sql(&f);

    assert_eq!(
        q.text,
        format!(
            "{HEAD} AND (1 = 1 AND event_id = ? AND EXISTS (SELECT 1 FROM item_body WHERE \
item_id = id AND matches(?, body)) AND EXISTS (SELECT 1 FROM item_body WHERE item_id = id AND \
body LIKE '%' || ? || '%') AND EXISTS (SELECT 1 FROM item_body WHERE item_id = id AND body LIKE \
'%' || ? || '%') AND EXISTS (SELECT 1 FROM item_body WHERE item_id = id AND body LIKE '%' || ? \
|| '%')) AND system IN (?, ?) AND type IN (?) AND (type NOT IN ('event_notification', \
'event_payload') OR entity_event_id IN (?)) AND submit_date >= ? AND submit_date <= ?) WHERE 1 \
= 1 AND id >= ? AND id <= ? ORDER BY id LIMIT ?"
        )
    );
    assert_eq!(
        q.params,
        vec![
            SqlParam::Text("1".to_string()),
            SqlParam::Text("x'".to_string()),
            SqlParam::Text("OR".to_string()),
            SqlParam::Text("1=1".to_string()),
            SqlParam::Text("--".to_string()),
            SqlParam::Text("system-1".to_string()),
            SqlParam::Text("system-2".to_string()),
            SqlParam::Text("type-1".to_string()),
            SqlParam::Text("5".to_string()),
            SqlParam::Text("2025-01-01".to_string()),
            SqlParam::Text("2025-12-31".to_string()),
            SqlParam::Int(2),
            SqlParam::Int(9),
            SqlParam::Uint(7),
        ]
    );
}

#[test]
fn test_sql_header_term() {
    let mut f = empty_filter();
    f.query = Some("abc:def".to_string());
    let q = build_search_sql(&f);
    assert_eq!(
        q.text,
        format!(
            "{HEAD} AND (1 = 1 AND EXISTS (SELECT 1 FROM item_header WHERE item_id = id AND \
name = ? AND value LIKE '%' || ? || '%'))) WHERE 1 = 1 ORDER BY id DESC"
        )
    );
    assert_eq!(
        q.params,
        vec![SqlParam::Text("abc".to_string()), SqlParam::Text("def".to_string())]
    );
}
