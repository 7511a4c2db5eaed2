use rusqlite::Connection;

use snipjar::{
    check_rows_changed, get_entry, get_recent_entries, map_write_error, prepare_create,
    prepare_update, search_entries, DataError, Entry, EntryInput, EntrySummary, SCHEMA,
};

fn sqlite_message(err: &rusqlite::Error) -> Option<String> {
    match err {
        rusqlite::Error::SqliteFailure(_, Some(message)) => Some(message.clone()),
        _ => None,
    }
}

fn write_error(err: rusqlite::Error) -> DataError {
    map_write_error(sqlite_message(&err), err)
}

fn open_store() -> Connection {
    let connection = Connection::open_in_memory().expect("in-memory database");
    connection.execute_batch(SCHEMA).expect("schema migration");
    connection
}

fn fetch_tags(connection: &Connection, id: &str) -> Result<Vec<String>, DataError> {
    let mut statement = connection
        .prepare("SELECT tag FROM entry_tags WHERE entry_id = ?1 ORDER BY tag ASC")
        .map_err(DataError::Sql)?;
    let tags = statement
        .query_map([id], |row| row.get::<_, String>(0))
        .map_err(DataError::Sql)?
        .collect::<Result<Vec<_>, _>>()
        .map_err(DataError::Sql)?;
    Ok(tags)
}

fn fetch_entry(connection: &Connection, id: &str) -> Result<Option<Entry>, DataError> {
    let mut statement = connection
        .prepare("SELECT id, key, value, created_at, updated_at FROM entries WHERE id = ?1")
        .map_err(DataError::Sql)?;
    let mut rows = statement
        .query_map([id], |row| {
            Ok((
                row.get::<_, String>(0)?,
                row.get::<_, String>(1)?,
                row.get::<_, String>(2)?,
                row.get::<_, String>(3)?,
                row.get::<_, String>(4)?,
            ))
        })
        .map_err(DataError::Sql)?;
    match rows.next() {
        None => Ok(None),
        Some(row) => {
            let (id, key, value, created_at, updated_at) = row.map_err(DataError::Sql)?;
            let tags = fetch_tags(connection, &id)?;
            Ok(Some(Entry { id, key, value, tags, created_at, updated_at }))
        }
    }
}

fn fetch_summaries(connection: &Connection) -> Result<Vec<EntrySummary>, DataError> {
    let mut statement = connection
        .prepare("SELECT id, key, updated_at FROM entries ORDER BY updated_at DESC")
        .map_err(DataError::Sql)?;
    let rows = statement
        .query_map([], |row| {
            Ok((row.get::<_, String>(0)?, row.get::<_, String>(1)?, row.get::<_, String>(2)?))
        })
        .map_err(DataError::Sql)?
        .collect::<Result<Vec<_>, _>>()
        .map_err(DataError::Sql)?;
    let mut out = Vec::new();
    for (id, key, updated_at) in rows {
        let tags = fetch_tags(connection, &id)?;
        out.push(EntrySummary { id, key, tags, updated_at });
    }
    Ok(out)
}

fn insert_tags(tx: &rusqlite::Transaction<'_>, id: &str, tags: &[String]) -> Result<(), DataError> {
    for tag in tags {
        tx.execute("INSERT INTO entry_tags (entry_id, tag) VALUES (?1, ?2)", (id, tag.as_str()))
            .map_err(DataError::Sql)?;
    }
    Ok(())
}

fn create_entry(connection: &mut Connection, entry_input: EntryInput) -> Result<Entry, DataError> {
    let prepared = prepare_create(entry_input)?;
    let tx = connection.transaction().map_err(DataError::Sql)?;
    tx.execute(
        "INSERT INTO entries (id, key, value, created_at, updated_at) VALUES (?1, ?2, ?3, ?4, ?5)",
        (
            prepared.id.as_str(),
            prepared.input.key.as_str(),
            prepared.input.value.as_str(),
            prepared.timestamp.as_str(),
            prepared.timestamp.as_str(),
        ),
    )
    .map_err(write_error)?;
    insert_tags(&tx, &prepared.id, &prepared.input.tags)?;
    tx.commit().map_err(DataError::Sql)?;
    get_entry(fetch_entry(connection, &prepared.id)?, &prepared.id)
}

fn update_entry(connection: &mut Connection, id: &str, entry_input: EntryInput) -> Result<Entry, DataError> {
    let prepared = prepare_update(entry_input)?;
    let tx = connection.transaction().map_err(DataError::Sql)?;
    let changed = tx
        .execute(
            "UPDATE entries SET key = ?1, value = ?2, updated_at = ?3 WHERE id = ?4",
            (
                prepared.input.key.as_str(),
                prepared.input.value.as_str(),
                prepared.timestamp.as_str(),
                id,
            ),
        )
        .map_err(write_error)?;
    check_rows_changed(changed, id)?;
    tx.execute("DELETE FROM entry_tags WHERE entry_id = ?1", [id]).map_err(DataError::Sql)?;
    insert_tags(&tx, id, &prepared.input.tags)?;
    tx.commit().map_err(DataError::Sql)?;
    get_entry(fetch_entry(connection, id)?, id)
}

fn delete_entry(connection: &Connection, id: &str) -> Result<(), DataError> {
    let changed = connection
        .execute("DELETE FROM entries WHERE id = ?1", [id])
        .map_err(DataError::Sql)?;
    check_rows_changed(changed, id)
}

#[test]
fn enforces_non_empty_unique_key_and_deduped_tags() {
    let connection = Connection::open_in_memory().expect("in-memory database");
    connection.execute_batch(SCHEMA).expect("schema migration");

    connection
        .execute(
            "INSERT INTO entries (id, key, value, created_at, updated_at) VALUES (?1, ?2, ?3, ?4, ?5)",
            ("1", "email", "test@example.com", "2026-01-01T00:00:00Z", "2026-01-01T00:00:00Z"),
        )
        .expect("insert first entry");

    let duplicate_key_error = connection
        .execute(
            "INSERT INTO entries (id, key, value, created_at, updated_at) VALUES (?1, ?2, ?3, ?4, ?5)",
            ("2", "email", "another@example.com", "2026-01-01T00:00:00Z", "2026-01-01T00:00:00Z"),
        )
        .expect_err("duplicate key must fail");
    assert_eq!(duplicate_key_error.sqlite_error_code(), Some(rusqlite::ErrorCode::ConstraintViolation));

    let empty_key_error = connection
        .execute(
            "INSERT INTO entries (id, key, value, created_at, updated_at) VALUES (?1, ?2, ?3, ?4, ?5)",
            ("3", "", "empty key", "2026-01-01T00:00:00Z", "2026-01-01T00:00:00Z"),
        )
        .expect_err("empty key must fail");
    assert_eq!(empty_key_error.sqlite_error_code(), Some(rusqlite::ErrorCode::ConstraintViolation));

    connection
        .execute("INSERT INTO entry_tags (entry_id, tag) VALUES (?1, ?2)", ("1", "work"))
        .expect("insert first tag");

    let duplicate_tag_error = connection
        .execute("INSERT INTO entry_tags (entry_id, tag) VALUES (?1, ?2)", ("1", "work"))
        .expect_err("duplicate tag must fail");
    assert_eq!(duplicate_tag_error.sqlite_error_code(), Some(rusqlite::ErrorCode::ConstraintViolation));
}

#[test]
fn enforces_lowercase_tags() {
    let connection = Connection::open_in_memory().expect("in-memory database");
    connection.execute_batch(SCHEMA).expect("schema migration");

    connection
        .execute(
            "INSERT INTO entries (id, key, value, created_at, updated_at) VALUES (?1, ?2, ?3, ?4, ?5)",
            ("1", "project", "snipjar", "2026-01-01T00:00:00Z", "2026-01-01T00:00:00Z"),
        )
        .expect("insert entry");

    let uppercase_tag_error = connection
        .execute("INSERT INTO entry_tags (entry_id, tag) VALUES (?1, ?2)", ("1", "Work"))
        .expect_err("uppercase tag must fail");
    assert_eq!(uppercase_tag_error.sqlite_error_code(), Some(rusqlite::ErrorCode::ConstraintViolation));
}

#[test]
fn create_update_search_recent_and_delete_flow() {
    let mut connection = open_store();

    let alpha = create_entry(
        &mut connection,
        EntryInput {
            key: "email".to_string(),
            value: "alpha@example.com".to_string(),
            tags: vec![" Work ".to_string(), "WORK".to_string(), "".to_string()],
        },
    )
    .expect("create alpha");
    let beta = create_entry(
        &mut connection,
        EntryInput {
            key: "my-email-template".to_string(),
            value: "template".to_string(),
            tags: vec!["notes".to_string()],
        },
    )
    .expect("create beta");
    let gamma = create_entry(
        &mut connection,
        EntryInput {
            key: "project".to_string(),
            value: "gamma".to_string(),
            tags: vec!["email".to_string()],
        },
    )
    .expect("create gamma");

    assert_eq!(alpha.tags, vec!["work".to_string()]);

    let loaded_beta = get_entry(fetch_entry(&connection, &beta.id).expect("read beta"), &beta.id)
        .expect("load beta");
    assert_eq!(loaded_beta.value, "template");

    let ranked = search_entries(fetch_summaries(&connection).expect("read entries"), "email");
    assert_eq!(ranked[0].id, alpha.id, "prefix match should rank first");
    assert_eq!(ranked[1].id, beta.id, "substring key match should rank second");
    assert_eq!(ranked[2].id, gamma.id, "tag match should rank after key matches");

    let updated = update_entry(
        &mut connection,
        &beta.id,
        EntryInput {
            key: "snippet".to_string(),
            value: "updated-value".to_string(),
            tags: vec!["Email".to_string(), "team".to_string(), "team".to_string()],
        },
    )
    .expect("update beta");

    assert_eq!(updated.tags, vec!["email".to_string(), "team".to_string()]);

    let recent = get_recent_entries(fetch_summaries(&connection).expect("read entries"));
    assert_eq!(recent[0].id, beta.id, "recent entries should prioritize updated_at");

    delete_entry(&connection, &gamma.id).expect("delete gamma");
    let after_delete = get_recent_entries(fetch_summaries(&connection).expect("entries after delete"));
    assert_eq!(after_delete.len(), 2);
    assert!(!after_delete.iter().any(|item| item.id == gamma.id));
}

#[test]
fn create_and_update_validate_input_and_unique_key() {
    let mut connection = open_store();

    let created = create_entry(
        &mut connection,
        EntryInput {
            key: "email".to_string(),
            value: "alpha@example.com".to_string(),
            tags: vec![],
        },
    )
    .expect("create entry");

    let duplicate = create_entry(
        &mut connection,
        EntryInput {
            key: " email ".to_string(),
            value: "another@example.com".to_string(),
            tags: vec![],
        },
    )
    .expect_err("duplicate key should fail");
    assert!(matches!(duplicate, DataError::DuplicateKey));

    let empty_key = create_entry(
        &mut connection,
        EntryInput {
            key: "  ".to_string(),
            value: "v".to_string(),
            tags: vec![],
        },
    )
    .expect_err("empty key should fail");
    assert!(matches!(empty_key, DataError::Validation(_)));

    let empty_value = update_entry(
        &mut connection,
        &created.id,
        EntryInput {
            key: "new".to_string(),
            value: "   ".to_string(),
            tags: vec![],
        },
    )
    .expect_err("empty value should fail");
    assert!(matches!(empty_value, DataError::Validation(_)));
}

#[test]
fn update_and_delete_of_unknown_id_report_not_found() {
    let mut connection = open_store();
    let missing = update_entry(
        &mut connection,
        "missing",
        EntryInput { key: "k".to_string(), value: "v".to_string(), tags: vec![] },
    )
    .expect_err("unknown id");
    assert!(matches!(missing, DataError::NotFound(id) if id == "missing"));
    let gone = delete_entry(&connection, "missing").expect_err("unknown id");
    assert!(matches!(gone, DataError::NotFound(_)));
}
