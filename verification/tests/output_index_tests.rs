use ar_matcher::output_index::{FileAge, OutputIndex};

#[test]
fn insert_and_ownership_check() {
    let mut index = OutputIndex::load(None);

    assert!(!index.is_owner("a.xlsx", "u@vanila.id")); // unknown file

    index.insert("a.xlsx", "u@vanila.id");
    assert!(index.is_owner("a.xlsx", "u@vanila.id"));
    assert!(!index.is_owner("a.xlsx", "other@vanila.id"));
}

#[test]
fn survives_reload_via_sidecar() {
    let text = {
        let mut index = OutputIndex::new();
        index.insert("b.xlsx", "fin@vanila.id");
        index.sidecar_text().expect("sidecar")
    };

    // Fresh instance reads persisted sidecar.
    let reloaded = OutputIndex::load(Some(&text));
    assert!(reloaded.is_owner("b.xlsx", "fin@vanila.id"));
    assert_eq!(reloaded.len_of(), 1);
}

#[test]
fn prune_drops_missing_files() {
    let mut index = OutputIndex::new();
    index.insert("exists.xlsx", "u@vanila.id");
    index.insert("ghost.xlsx", "u@vanila.id");
    assert_eq!(index.len_of(), 2);

    let ages: Vec<FileAge> = index
        .names()
        .iter()
        .map(|n| if n == "exists.xlsx" { FileAge::Seconds(5) } else { FileAge::Missing })
        .collect();
    let removed = index.prune(&ages, 3600);
    assert!(removed);
    assert_eq!(index.len_of(), 1);
    assert!(index.is_owner("exists.xlsx", "u@vanila.id"));
    assert!(!index.is_owner("ghost.xlsx", "u@vanila.id"));
}

#[test]
fn corrupt_sidecar_starts_empty_without_panic() {
    let index = OutputIndex::load(Some("not json{{{"));
    assert_eq!(index.len_of(), 0);
}

#[test]
fn reinserting_replaces_the_owner() {
    let mut index = OutputIndex::new();
    index.insert("a.xlsx", "first@vanila.id");
    index.insert("b.xlsx", "first@vanila.id");
    index.insert("a.xlsx", "second@vanila.id");
    assert_eq!(index.len_of(), 2);
    assert!(index.is_owner("a.xlsx", "second@vanila.id"));
    assert!(!index.is_owner("a.xlsx", "first@vanila.id"));
    assert!(index.is_owner("b.xlsx", "first@vanila.id"));
}

#[test]
fn prune_expires_old_entries_and_keeps_future_ones() {
    let mut index = OutputIndex::new();
    index.insert("old.xlsx", "u");
    index.insert("new.xlsx", "u");
    index.insert("odd.xlsx", "u");
    let ages: Vec<FileAge> = index
        .names()
        .iter()
        .map(|n| match n.as_str() {
            "old.xlsx" => FileAge::Seconds(3600),
            "new.xlsx" => FileAge::Seconds(10),
            _ => FileAge::Future,
        })
        .collect();
    assert!(index.prune(&ages, 3600));
    assert_eq!(index.names(), vec!["new.xlsx".to_string(), "odd.xlsx".to_string()]);

    // A clock-skewed file is kept, as the file cleanup keeps it.
    let mut skewed = OutputIndex::new();
    skewed.insert("odd.xlsx", "u");
    assert!(!skewed.prune(&vec![FileAge::Future], 3600));
    assert_eq!(skewed.len_of(), 1);
    assert!(skewed.is_owner("odd.xlsx", "u"));
}

#[test]
fn sidecar_entries_without_owner_are_skipped() {
    let index = OutputIndex::load(Some(r#"{"a.xlsx":{"owner":"x@y"},"b.xlsx":{"other":"z"}}"#));
    assert_eq!(index.len_of(), 1);
    assert!(index.is_owner("a.xlsx", "x@y"));
    let empty = OutputIndex::load(Some("[1, 2]"));
    assert_eq!(empty.len_of(), 0);
}
