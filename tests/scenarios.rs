use md_docs::codec::normalize_path;
use md_docs::scan::ScanItem;
use md_docs::service::{DocError, DocService};
use md_docs::settings::Settings;

fn segs(v: &[&str]) -> Vec<String> {
    v.iter().map(|s| s.to_string()).collect()
}

fn fresh() -> DocService {
    DocService::new(&Settings {
        doc_root_path: "/data/notes".to_string(),
        ignore_dirs: segs(&["node_modules"]),
    })
}

fn root_names(service: &DocService) -> Vec<String> {
    service
        .get_sub_doc_items("")
        .unwrap()
        .iter()
        .map(|d| d.name.clone())
        .collect()
}

/// Checks the links between every entry and its parent on concrete values.
fn assert_linked(service: &DocService) {
    let map = service.get_normalized_docs();
    for i in 0..map.len() {
        let key = map.key_at(i);
        let doc = map.doc_at(i);
        assert_eq!(&normalize_path(&doc.path), key);
        match &doc.parent_key {
            None => assert_eq!(doc.path.len(), 1),
            Some(pk) => {
                let parent = map.get(pk).unwrap();
                assert!(!parent.is_file);
                assert!(parent.children_keys.contains(key));
                assert_eq!(parent.path[..], doc.path[..doc.path.len() - 1]);
            }
        }
        for c in &doc.children_keys {
            assert_eq!(map.get(c).unwrap().parent_key.as_ref(), Some(key));
        }
    }
}

#[test]
fn cascading_rename_moves_descendants() {
    let mut service = fresh();
    service.create_new_doc_at_cache("a", false).unwrap();
    service.create_new_doc_at_cache("a%2Fb", false).unwrap();
    service.create_new_doc_at_cache("a%2Fb%2Fc", true).unwrap();

    service.modify_name_at_cache("a%2Fb", "z").unwrap();

    let map = service.get_normalized_docs();
    assert!(map.get("a%2Fb").is_none());
    assert!(map.get("a%2Fb%2Fc").is_none());
    let c = map.get("a%2Fz%2Fc").unwrap();
    assert_eq!(c.path, segs(&["a", "z", "c"]));
    assert_eq!(c.id, "c-a-z-c");
    assert_eq!(c.parent_key, Some("a%2Fz".to_string()));
    let z = map.get("a%2Fz").unwrap();
    assert_eq!(z.name, "z");
    assert_eq!(z.children_keys, segs(&["a%2Fz%2Fc"]));
    assert_eq!(map.get("a").unwrap().children_keys, segs(&["a%2Fz"]));
    let tree = service.get_sub_doc_items("a%2Fz").unwrap();
    assert_eq!(tree.len(), 1);
    assert_eq!(tree[0].path, segs(&["a", "z", "c"]));
    assert_linked(&service);
}

#[test]
fn cascading_delete_removes_descendants() {
    let mut service = fresh();
    service.create_new_doc_at_cache("a", false).unwrap();
    service.create_new_doc_at_cache("a%2Fb", false).unwrap();
    service.create_new_doc_at_cache("a%2Fb%2Fc", true).unwrap();
    service.create_new_doc_at_cache("a%2Fd", true).unwrap();

    service.delete_doc_at_cache("a%2Fb");

    let map = service.get_normalized_docs();
    assert!(map.get("a%2Fb").is_none());
    assert!(map.get("a%2Fb%2Fc").is_none());
    assert_eq!(map.len(), 2);
    assert_eq!(map.get("a").unwrap().children_keys, segs(&["a%2Fd"]));
    assert_linked(&service);
}

#[test]
fn delete_of_unknown_key_changes_nothing() {
    let mut service = fresh();
    service.create_new_doc_at_cache("a", true).unwrap();
    service.delete_doc_at_cache("missing");
    assert_eq!(service.get_normalized_docs().len(), 1);
}

#[test]
fn rename_to_current_name_changes_nothing() {
    let mut service = fresh();
    service.create_new_doc_at_cache("dir", false).unwrap();
    service.create_new_doc_at_cache("dir%2Fnote", true).unwrap();
    let before = service.get_normalized_docs();

    assert_eq!(service.modify_name_at_cache("dir", "dir"), Ok(()));

    let after = service.get_normalized_docs();
    assert_eq!(after.len(), before.len());
    for i in 0..before.len() {
        let key = before.key_at(i);
        let a = after.get(key).unwrap();
        let b = before.doc_at(i);
        assert_eq!(a.name, b.name);
        assert_eq!(a.id, b.id);
        assert_eq!(a.path, b.path);
        assert_eq!(a.children_keys, b.children_keys);
        assert_eq!(a.parent_key, b.parent_key);
    }
}

#[test]
fn missing_root_scans_to_empty_tree() {
    let mut service = fresh();
    service.create_new_doc_at_cache("stale", true).unwrap();
    service.refresh_doc(&Vec::new());
    assert!(service.get_sub_doc_items("").unwrap().is_empty());
    assert!(service.is_empty());
}

#[test]
fn end_to_end_create_rename_and_look_up() {
    let mut service = fresh();
    service.create_new_doc_at_cache("docs", false).unwrap();
    service.create_new_doc_at_cache("docs%2Fnote", true).unwrap();
    assert_eq!(service.path_convertor("docs%2Fnote", true), segs(&["docs", "note.md"]));

    service.modify_name_at_cache("docs", "notes").unwrap();

    let map = service.get_normalized_docs();
    assert!(map.get("notes%2Fnote").is_some());
    assert!(map.get("docs%2Fnote").is_none());
    assert_eq!(service.path_convertor("notes%2Fnote", true), segs(&["notes", "note.md"]));
    assert_linked(&service);
}

#[test]
fn siblings_sort_the_same_whatever_the_insertion_order() {
    let orders: [[&str; 4]; 3] = [
        ["Beta", "alpha", "gamma", "delta"],
        ["gamma", "delta", "Beta", "alpha"],
        ["delta", "alpha", "Beta", "gamma"],
    ];
    let mut results = Vec::new();
    for order in orders.iter() {
        let mut service = fresh();
        service.create_new_doc_at_cache("p", false).unwrap();
        for name in order.iter() {
            let is_file = *name == "gamma" || *name == "alpha";
            let key = normalize_path(&segs(&["p", name]));
            service.create_new_doc_at_cache(&key, is_file).unwrap();
        }
        let names: Vec<String> = service
            .get_sub_doc_items("p")
            .unwrap()
            .iter()
            .map(|d| d.name.clone())
            .collect();
        results.push(names);
    }
    assert_eq!(results[0], segs(&["Beta", "delta", "alpha", "gamma"]));
    assert_eq!(results[0], results[1]);
    assert_eq!(results[1], results[2]);
}

#[test]
fn files_sort_by_lower_cased_id() {
    let mut service = fresh();
    service.create_new_doc_at_cache("Zeta", true).unwrap();
    service.create_new_doc_at_cache("apple", true).unwrap();
    service.create_new_doc_at_cache("Mango", false).unwrap();
    assert_eq!(root_names(&service), segs(&["Mango", "apple", "Zeta"]));
}

#[test]
fn create_rejects_empty_segment() {
    let mut service = fresh();
    assert_eq!(
        service.create_new_doc_at_cache("a%2F%2Fb", true).map(|d| d.name),
        Err(DocError::InvalidPath)
    );
    assert_eq!(
        service.create_new_doc_at_cache("", true).map(|d| d.name),
        Err(DocError::InvalidPath)
    );
}

#[test]
fn create_rejects_existing_key() {
    let mut service = fresh();
    service.create_new_doc_at_cache("a", true).unwrap();
    assert_eq!(
        service.create_new_doc_at_cache("a", false).map(|d| d.name),
        Err(DocError::AlreadyExists)
    );
}

#[test]
fn create_rejects_missing_or_file_parent() {
    let mut service = fresh();
    assert_eq!(
        service.create_new_doc_at_cache("x%2Fy", true).map(|d| d.name),
        Err(DocError::ParentNotFound)
    );
    service.create_new_doc_at_cache("f", true).unwrap();
    assert_eq!(
        service.create_new_doc_at_cache("f%2Fy", true).map(|d| d.name),
        Err(DocError::ParentNotFound)
    );
}

#[test]
fn create_stores_the_canonical_key() {
    let mut service = fresh();
    service.create_new_doc_at_cache("a", false).unwrap();
    let doc = service.create_new_doc_at_cache("a/b c", true).unwrap();
    assert_eq!(doc.path, segs(&["a", "b c"]));
    assert_eq!(doc.id, "b c-a-b c");
    assert!(service.get_normalized_docs().get("a%2Fb%20c").is_some());
}

#[test]
fn rename_reports_unknown_key_bad_name_and_collision() {
    let mut service = fresh();
    assert_eq!(service.modify_name_at_cache("nope", "x"), Err(DocError::NotFound));
    service.create_new_doc_at_cache("a", true).unwrap();
    service.create_new_doc_at_cache("b", true).unwrap();
    assert_eq!(service.modify_name_at_cache("a", ""), Err(DocError::InvalidPath));
    assert_eq!(service.modify_name_at_cache("a", "x/y"), Err(DocError::InvalidPath));
    assert_eq!(service.modify_name_at_cache("a", "b"), Err(DocError::AlreadyExists));
    assert_eq!(service.get_normalized_docs().len(), 2);
}

#[test]
fn listing_unknown_folder_is_not_found() {
    let service = fresh();
    assert_eq!(
        service.get_sub_doc_items("missing").map(|d| d.len()),
        Err(DocError::NotFound)
    );
}

#[test]
fn paste_into_root_or_indexed_directory_is_allowed() {
    let mut service = fresh();
    service.create_new_doc_at_cache("dir", false).unwrap();
    service.create_new_doc_at_cache("file", true).unwrap();
    assert_eq!(service.check_paste_parent("new"), Ok(()));
    assert_eq!(service.check_paste_parent("dir%2Fnew"), Ok(()));
    assert_eq!(
        service.check_paste_parent("file%2Fnew"),
        Err(DocError::InvalidDestination)
    );
}

#[test]
fn scan_keeps_markdown_and_skips_hidden_and_ignored() {
    let mut service = fresh();
    service.refresh_doc(&vec![
        ScanItem { path: segs(&["guide"]), is_dir: true },
        ScanItem { path: segs(&["guide", "intro.md"]), is_dir: false },
        ScanItem { path: segs(&["guide", "image.png"]), is_dir: false },
        ScanItem { path: segs(&[".hidden.md"]), is_dir: false },
        ScanItem { path: segs(&["node_modules"]), is_dir: true },
        ScanItem { path: segs(&["node_modules", "x.md"]), is_dir: false },
        ScanItem { path: segs(&["readme.md"]), is_dir: false },
    ]);
    assert_eq!(root_names(&service), segs(&["guide", "readme"]));
    let guide = service.get_sub_doc_items("").unwrap();
    assert_eq!(guide[0].children.len(), 1);
    assert_eq!(guide[0].children[0].id, "intro-guide-intro");
    assert_eq!(service.get_normalized_docs().len(), 3);
    assert_linked(&service);
}

#[test]
fn whole_tree_nests_children() {
    let mut service = fresh();
    service.create_new_doc_at_cache("a", false).unwrap();
    service.create_new_doc_at_cache("a%2Fb", false).unwrap();
    service.create_new_doc_at_cache("a%2Fb%2Fc", true).unwrap();
    let tree = service.get_docs();
    assert_eq!(tree.len(), 1);
    assert_eq!(tree[0].children[0].children[0].name, "c");
    assert_eq!(tree[0].children[0].children[0].path, segs(&["a", "b", "c"]));
}

#[test]
fn path_conversion_replaces_the_last_name() {
    let service = fresh();
    assert_eq!(
        service.path_convertor_with_name("js%2Fold", true, Some("new")),
        segs(&["js", "new.md"])
    );
    assert_eq!(service.path_convertor("js%2Fdir", false), segs(&["js", "dir"]));
    assert!(service.is_markdown("a.md"));
    assert!(!service.is_markdown("a.txt"));
}

#[test]
fn renaming_a_directory_reorders_files_whose_ids_change_order() {
    let mut service = fresh();
    service.create_new_doc_at_cache("p", false).unwrap();
    service.create_new_doc_at_cache("p%2Fa", true).unwrap();
    service.create_new_doc_at_cache("p%2Fa-x", true).unwrap();
    assert_eq!(names_of(&service, "p"), segs(&["a", "a-x"]));

    service.modify_name_at_cache("p", "z").unwrap();

    assert_eq!(names_of(&service, "z"), segs(&["a-x", "a"]));
    assert_eq!(
        service.get_normalized_docs().get("z").unwrap().children_keys,
        segs(&["z%2Fa-x", "z%2Fa"])
    );
    assert_linked(&service);
}

fn names_of(service: &DocService, key: &str) -> Vec<String> {
    service
        .get_sub_doc_items(key)
        .unwrap()
        .iter()
        .map(|d| d.name.clone())
        .collect()
}

#[test]
fn lookup_returns_one_entry() {
    let mut service = fresh();
    service.create_new_doc_at_cache("a", false).unwrap();
    assert_eq!(service.get("a").unwrap().name, "a");
    assert!(service.get("b").is_none());
}

#[test]
fn renaming_a_file_keeps_its_siblings_sorted() {
    let mut service = fresh();
    service.create_new_doc_at_cache("p", false).unwrap();
    service.create_new_doc_at_cache("p%2Fb", true).unwrap();
    service.create_new_doc_at_cache("p%2Fd", true).unwrap();
    service.create_new_doc_at_cache("p%2Fq", false).unwrap();
    service.modify_name_at_cache("p%2Fd", "a").unwrap();
    assert_eq!(names_of(&service, "p"), segs(&["q", "a", "b"]));
    assert_eq!(
        service.get("p").unwrap().children_keys,
        segs(&["p%2Fq", "p%2Fa", "p%2Fb"])
    );
    assert_linked(&service);
}
