use waywallen::table::{ItemKey, Table};
use waywallen::wallpaper_sort::{
    apply_wallpaper_sorts, begin_ordering, continue_ordering, load_db_meta_map, needed_queries,
    order_rows, ordered_entry_ids, sort_row, DbMetaMap, EntryQuery, EntryStep, ItemKeySet, ItemMeta, ItemRow, LibraryRow, SortDirection, SortRow, WallpaperEntry,
    WallpaperSortKey, WallpaperSortRule,
};

fn entry(id: &str, name: &str, wp_type: &str, size: Option<i64>) -> WallpaperEntry {
    WallpaperEntry {
        id: id.to_string(),
        name: name.to_string(),
        wp_type: wp_type.to_string(),
        size,
        library_root: "/lib".to_string(),
        relative: Some(format!("{id}.png")),
    }
}

fn rule(key: WallpaperSortKey, direction: SortDirection) -> WallpaperSortRule {
    WallpaperSortRule {
        key: Some(key),
        direction: Some(direction),
    }
}

fn key(path: &str) -> ItemKey {
    ItemKey {
        root: "/lib".to_string(),
        path: path.to_string(),
    }
}

fn sorted(entries: &[WallpaperEntry], rules: &[WallpaperSortRule], meta: &DbMetaMap) -> Vec<String> {
    let mut refs: Vec<&WallpaperEntry> = entries.iter().collect();
    apply_wallpaper_sorts(&mut refs, rules, meta);
    refs.iter().map(|e| e.id.clone()).collect()
}

#[test]
fn names_are_compared_in_lower_case() {
    let entries = vec![
        entry("1", "beta", "image", None),
        entry("2", "Alpha", "image", None),
        entry("3", "GAMMA", "image", None),
        entry("4", "\u{c4}rger", "image", None),
        entry("5", "\u{e4}rger", "image", None),
    ];
    let meta: DbMetaMap = Table::new();
    let rules = [rule(WallpaperSortKey::Name, SortDirection::Asc)];
    assert_eq!(sorted(&entries, &rules, &meta), ["2", "1", "3", "4", "5"]);
    let rules = [rule(WallpaperSortKey::Name, SortDirection::Desc)];
    assert_eq!(sorted(&entries, &rules, &meta), ["4", "5", "3", "1", "2"]);
}

#[test]
fn types_are_compared_as_they_are() {
    let entries = vec![
        entry("1", "", "video", None),
        entry("2", "", "Video", None),
        entry("3", "", "image", None),
    ];
    let meta: DbMetaMap = Table::new();
    let rules = [rule(WallpaperSortKey::WpType, SortDirection::Unspecified)];
    assert_eq!(sorted(&entries, &rules, &meta), ["2", "3", "1"]);
}

#[test]
fn first_rule_is_primary_and_equal_entries_keep_their_order() {
    let entries = vec![
        entry("1", "b", "video", Some(5)),
        entry("2", "a", "image", Some(5)),
        entry("3", "b", "image", Some(9)),
        entry("4", "a", "video", Some(1)),
        entry("5", "A", "image", Some(5)),
    ];
    let meta: DbMetaMap = Table::new();
    let rules = [
        rule(WallpaperSortKey::WpType, SortDirection::Asc),
        rule(WallpaperSortKey::Size, SortDirection::Desc),
    ];
    assert_eq!(sorted(&entries, &rules, &meta), ["3", "2", "5", "1", "4"]);
    let rules = [
        rule(WallpaperSortKey::Size, SortDirection::Desc),
        rule(WallpaperSortKey::Name, SortDirection::Asc),
    ];
    assert_eq!(sorted(&entries, &rules, &meta), ["3", "2", "5", "1", "4"]);
}

#[test]
fn sorting_again_changes_nothing() {
    let entries = vec![
        entry("1", "c", "image", Some(2)),
        entry("2", "a", "image", Some(2)),
        entry("3", "b", "video", Some(1)),
    ];
    let meta: DbMetaMap = Table::new();
    let rules = [rule(WallpaperSortKey::Size, SortDirection::Asc)];
    let mut refs: Vec<&WallpaperEntry> = entries.iter().collect();
    apply_wallpaper_sorts(&mut refs, &rules, &meta);
    let once: Vec<String> = refs.iter().map(|e| e.id.clone()).collect();
    apply_wallpaper_sorts(&mut refs, &rules, &meta);
    let twice: Vec<String> = refs.iter().map(|e| e.id.clone()).collect();
    assert_eq!(once, ["3", "1", "2"]);
    assert_eq!(once, twice);
}

#[test]
fn rules_without_a_key_have_no_effect() {
    let entries = vec![
        entry("1", "b", "image", None),
        entry("2", "a", "image", None),
    ];
    let meta: DbMetaMap = Table::new();
    let unspecified = rule(WallpaperSortKey::Unspecified, SortDirection::Desc);
    let unknown = WallpaperSortRule {
        key: None,
        direction: Some(SortDirection::Asc),
    };
    assert_eq!(sorted(&entries, &[unspecified, unknown], &meta), ["1", "2"]);
    let by_name = rule(WallpaperSortKey::Name, SortDirection::Asc);
    assert_eq!(
        sorted(&entries, &[by_name, unspecified, unknown], &meta),
        sorted(&entries, &[by_name], &meta)
    );
    let undirected = WallpaperSortRule {
        key: Some(WallpaperSortKey::Name),
        direction: None,
    };
    assert_eq!(sorted(&entries, &[unspecified, undirected], &meta), ["2", "1"]);
}

#[test]
fn recorded_size_goes_before_the_entry_s_own() {
    let entries = vec![
        entry("1", "", "", Some(10)),
        entry("2", "", "", Some(20)),
        entry("3", "", "", None),
    ];
    let mut meta: DbMetaMap = Table::new();
    meta.insert(
        key("1.png"),
        ItemMeta {
            size: Some(30),
            modified_at: Some(3),
        },
    );
    meta.insert(
        key("2.png"),
        ItemMeta {
            size: None,
            modified_at: Some(-1),
        },
    );
    let rules = [rule(WallpaperSortKey::Size, SortDirection::Asc)];
    assert_eq!(sorted(&entries, &rules, &meta), ["3", "2", "1"]);
    let rules = [rule(WallpaperSortKey::LastModified, SortDirection::Asc)];
    assert_eq!(sorted(&entries, &rules, &meta), ["2", "3", "1"]);
}

#[test]
fn row_of_an_entry_outside_its_library_has_no_metadata() {
    let mut e = entry("1", "Name", "image", Some(7));
    let mut meta: DbMetaMap = Table::new();
    meta.insert(
        key("1.png"),
        ItemMeta {
            size: Some(30),
            modified_at: Some(3),
        },
    );
    let row = sort_row(&e, "name", &meta);
    assert_eq!(row.name, vec!['n', 'a', 'm', 'e']);
    assert_eq!((row.size, row.modified), (30, 3));
    e.relative = None;
    let row = sort_row(&e, "name", &meta);
    assert_eq!((row.size, row.modified), (7, 0));
}

#[test]
fn order_of_rows_is_a_list_of_places() {
    let row = |size: i64| SortRow {
        name: Vec::new(),
        wp_type: Vec::new(),
        size,
        modified: 0,
    };
    let rows = vec![row(3), row(1), row(2), row(1)];
    let rules = [rule(WallpaperSortKey::Size, SortDirection::Asc)];
    assert_eq!(order_rows(&rows, &rules), vec![1, 3, 2, 0]);
    assert_eq!(order_rows(&rows, &[]), vec![0, 1, 2, 3]);
    assert_eq!(order_rows(&Vec::new(), &rules), Vec::<usize>::new());
}

#[test]
fn metadata_joins_items_with_known_libraries() {
    let libs = vec![
        LibraryRow {
            id: 1,
            path: "/old".to_string(),
        },
        LibraryRow {
            id: 1,
            path: "/lib".to_string(),
        },
    ];
    let item = |library_id: i64, size: i64| ItemRow {
        library_id,
        path: "a.png".to_string(),
        meta: ItemMeta {
            size: Some(size),
            modified_at: None,
        },
    };
    let items = vec![item(1, 5), item(2, 6), item(1, 7)];
    let map = load_db_meta_map(&libs, &items);
    assert_eq!(map.entries.len(), 1);
    assert_eq!(map.get(&key("a.png")).unwrap().size, Some(7));
    assert!(!map.contains_key(&ItemKey {
        root: "/old".to_string(),
        path: "a.png".to_string()
    }));
}

#[test]
fn ids_without_a_filter_name_every_entry() {
    let entries = vec![entry("1", "b", "", None), entry("2", "a", "", None)];
    let meta: DbMetaMap = Table::new();
    assert_eq!(ordered_entry_ids(&entries, &None, &[], &meta), ["1", "2"]);
    let rules = [rule(WallpaperSortKey::Name, SortDirection::Asc)];
    assert_eq!(ordered_entry_ids(&entries, &None, &rules, &meta), ["2", "1"]);
}

#[test]
fn filter_keeps_matched_entries_in_order() {
    let mut outside = entry("4", "z", "", None);
    outside.relative = None;
    let entries = vec![
        entry("1", "c", "", None),
        entry("2", "b", "", None),
        entry("3", "a", "", None),
        outside,
    ];
    let meta: DbMetaMap = Table::new();
    let mut keys: ItemKeySet = Table::new();
    keys.insert(key("1.png"), ());
    keys.insert(key("3.png"), ());
    let matched = Some(keys);
    assert_eq!(ordered_entry_ids(&entries, &matched, &[], &meta), ["1", "3"]);
    let rules = [rule(WallpaperSortKey::Name, SortDirection::Asc)];
    assert_eq!(
        ordered_entry_ids(&entries, &matched, &rules, &meta),
        ["3", "1"]
    );
    let none = Some(Table::new());
    assert!(ordered_entry_ids(&entries, &none, &rules, &meta).is_empty());
}

#[test]
fn table_replaces_and_removes() {
    let mut t: Table<String, u32> = Table::new();
    t.insert("a".to_string(), 1);
    t.insert("b".to_string(), 2);
    t.insert("a".to_string(), 3);
    assert_eq!(t.entries.len(), 2);
    assert_eq!(t.get(&"a".to_string()), Some(&3));
    assert_eq!(t.remove(&"a".to_string()), Some(3));
    assert_eq!(t.remove(&"a".to_string()), None);
    assert!(!t.contains_key(&"a".to_string()));
    assert!(t.contains_key(&"b".to_string()));
}

#[test]
fn queries_that_are_needed() {
    assert_eq!(needed_queries(0, 0), (false, false));
    assert_eq!(needed_queries(2, 0), (true, false));
    assert_eq!(needed_queries(0, 1), (false, true));
    assert_eq!(needed_queries(3, 3), (true, true));
}

fn asked(filters: usize, sorts: usize) -> Vec<EntryQuery> {
    let mut list = Vec::new();
    let mut step = begin_ordering(filters, sorts);
    while let EntryStep::Ask { query } = step {
        list.push(query);
        step = continue_ordering(step, sorts, true);
    }
    assert_eq!(step, EntryStep::Order);
    list
}

#[test]
fn needed_queries_are_made_in_order() {
    assert_eq!(asked(0, 0), vec![]);
    assert_eq!(asked(1, 0), vec![EntryQuery::FilterKeys]);
    assert_eq!(asked(0, 1), vec![EntryQuery::Libraries, EntryQuery::Items]);
    assert_eq!(asked(1, 1), vec![
            EntryQuery::FilterKeys,
            EntryQuery::Libraries,
            EntryQuery::Items
        ]);
}

#[test]
fn failed_query_ends_the_run() {
    let all = asked(1, 1);
    for fail_at in 0..all.len() {
        let mut step = begin_ordering(1, 1);
        for _ in 0..fail_at {
            step = continue_ordering(step, 1, true);
        }
        let failed = EntryStep::Failed {
            query: all[fail_at],
        };
        step = continue_ordering(step, 1, false);
        assert_eq!(step, failed);
        assert_eq!(continue_ordering(step, 1, true), failed);
    }
}

#[test]
fn joined_rules_sort_in_two_passes() {
    let entries = vec![
        entry("1", "b", "x", Some(2)),
        entry("2", "a", "y", Some(2)),
        entry("3", "c", "x", Some(1)),
        entry("4", "a", "x", Some(1)),
    ];
    let meta: DbMetaMap = Table::new();
    let first = [rule(WallpaperSortKey::WpType, SortDirection::Desc)];
    let rest = [
        rule(WallpaperSortKey::Size, SortDirection::Asc),
        rule(WallpaperSortKey::Name, SortDirection::Asc),
    ];
    let joined: Vec<WallpaperSortRule> = first.iter().chain(rest.iter()).copied().collect();
    let mut refs: Vec<&WallpaperEntry> = entries.iter().collect();
    apply_wallpaper_sorts(&mut refs, &rest, &meta);
    apply_wallpaper_sorts(&mut refs, &first, &meta);
    let twice: Vec<String> = refs.iter().map(|e| e.id.clone()).collect();
    assert_eq!(twice, ["2", "4", "3", "1"]);
    assert_eq!(sorted(&entries, &joined, &meta), twice);
}
