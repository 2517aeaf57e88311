use md_docs::codec::normalize_path;
use md_docs::scan::ScanItem;
use md_docs::service::{DocError, DocService};
use md_docs::settings::Settings;

fn segs(v: &[&str]) -> Vec<String> {
    v.iter().map(|s| s.to_string()).collect()
}

fn setup_test_service() -> DocService {
    let settings = Settings {
        doc_root_path: "/srv/docs".to_string(),
        ignore_dirs: segs(&[".git", "node_modules"]),
    };
    DocService::new(&settings)
}

fn item(path: &[&str], is_dir: bool) -> ScanItem {
    ScanItem { path: segs(path), is_dir }
}

fn names(service: &DocService, key: &str) -> Vec<String> {
    service
        .get_sub_doc_items(key)
        .unwrap()
        .iter()
        .map(|d| d.name.clone())
        .collect()
}

#[test]
fn test_get_sub_doc_items() {
    let service = setup_test_service();
    let docs = service.get_sub_doc_items("").unwrap();
    assert!(docs.is_empty());
}

#[test]
fn test_create_file() {
    let mut service = setup_test_service();
    let doc_path = "test-file";

    let doc = service.create_new_doc_at_cache(doc_path, true).unwrap();
    assert_eq!(doc.name, "test-file");
    assert!(doc.is_file);
    assert_eq!(doc.path, vec!["test-file"]);

    let fs_path = service.path_convertor(doc_path, true);
    assert_eq!(fs_path, vec!["test-file.md"]);
}

#[test]
fn test_create_directory() {
    let mut service = setup_test_service();
    let doc_path = "test-dir";

    let doc = service.create_new_doc_at_cache(doc_path, false).unwrap();
    assert_eq!(doc.name, "test-dir");
    assert!(!doc.is_file);
    assert_eq!(doc.path, vec!["test-dir"]);

    let fs_path = service.path_convertor(doc_path, false);
    assert_eq!(fs_path, vec!["test-dir"]);
}

#[test]
fn test_create_nested_file() {
    let mut service = setup_test_service();
    service.create_new_doc_at_cache("parent", false).unwrap();
    service.create_new_doc_at_cache("parent%2Fchild", false).unwrap();

    let doc_path = "parent%2Fchild%2Ffile";
    let doc = service.create_new_doc_at_cache(doc_path, true).unwrap();
    assert_eq!(doc.name, "file");
    assert_eq!(doc.path, vec!["parent", "child", "file"]);

    let fs_path = service.path_convertor(doc_path, true);
    assert_eq!(fs_path, vec!["parent", "child", "file.md"]);
    let map = service.get_normalized_docs();
    assert_eq!(map.get("parent%2Fchild").unwrap().children_keys, vec![doc_path]);
    assert_eq!(
        map.get(doc_path).unwrap().parent_key,
        Some("parent%2Fchild".to_string())
    );
}

#[test]
fn test_delete_file() {
    let mut service = setup_test_service();
    let doc_path = "test-file";

    service.create_new_doc_at_cache(doc_path, true).unwrap();
    assert!(service.get_normalized_docs().get(doc_path).is_some());

    service.delete_doc_at_cache(doc_path);
    assert!(service.get_normalized_docs().get(doc_path).is_none());
}

#[test]
fn test_delete_directory() {
    let mut service = setup_test_service();
    let doc_path = "test-dir";

    service.create_new_doc_at_cache(doc_path, false).unwrap();
    service.create_new_doc_at_cache("test-dir%2Ffile", true).unwrap();
    assert!(service.get_normalized_docs().get(doc_path).is_some());

    service.delete_doc_at_cache(doc_path);
    let map = service.get_normalized_docs();
    assert!(map.get(doc_path).is_none());
    assert!(map.get("test-dir%2Ffile").is_none());
    assert_eq!(map.len(), 0);
}

#[test]
fn test_copy_cut_invalid_parent_path() {
    let mut service = setup_test_service();
    let source_path = "source-file";
    let invalid_dest = normalize_path(&segs(&["nonexistent", "parent", "dest"]));

    service.create_new_doc_at_cache(source_path, true).unwrap();

    let result = service.check_paste_parent(&invalid_dest);
    assert!(result.is_err());
    assert_eq!(result, Err(DocError::InvalidDestination));
}

#[test]
fn test_rename_file() {
    let mut service = setup_test_service();
    let old_path = "old-file";
    let new_name = "new-file";

    service.create_new_doc_at_cache(old_path, true).unwrap();

    let docs = service.get_sub_doc_items("").unwrap();
    assert_eq!(docs.len(), 1);
    let actual_old_path = normalize_path(&docs[0].path);

    service
        .modify_name_at_cache(&actual_old_path, new_name)
        .unwrap();

    let new_path = normalize_path(&vec![new_name.to_string()]);
    let map = service.get_normalized_docs();
    assert!(map.get(&actual_old_path).is_none());
    let renamed = map.get(&new_path).unwrap();
    assert_eq!(renamed.name, "new-file");
    assert_eq!(renamed.id, "new-file-new-file");
    assert_eq!(
        service.path_convertor_with_name(&actual_old_path, true, Some(new_name)),
        vec!["new-file.md"]
    );
}

#[test]
fn test_rename_directory() {
    let mut service = setup_test_service();
    let old_path = "old-dir";
    let new_name = "new-dir";
    let file_path = normalize_path(&segs(&["old-dir", "file"]));

    service.create_new_doc_at_cache(old_path, false).unwrap();
    service.create_new_doc_at_cache(&file_path, true).unwrap();

    let docs = service.get_sub_doc_items("").unwrap();
    assert_eq!(docs.len(), 1);

    service.modify_name_at_cache(old_path, new_name).unwrap();

    let map = service.get_normalized_docs();
    assert!(map.get(old_path).is_none());
    assert!(map.get(new_name).is_some());

    let new_file_path = normalize_path(&segs(&["new-dir", "file"]));
    let file = map.get(&new_file_path).unwrap();
    assert_eq!(file.path, vec!["new-dir", "file"]);
    assert_eq!(file.parent_key, Some("new-dir".to_string()));
    assert!(map.get(&file_path).is_none());
}

#[test]
fn test_rename_same_name_no_op() {
    let mut service = setup_test_service();
    let doc_path = "test-file";

    service.create_new_doc_at_cache(doc_path, true).unwrap();

    service.modify_name_at_cache(doc_path, "test-file").unwrap();

    let map = service.get_normalized_docs();
    assert_eq!(map.len(), 1);
    assert_eq!(map.get(doc_path).unwrap().name, "test-file");
}

#[test]
fn test_get_docs_with_cache() {
    let mut service = setup_test_service();
    let doc_path = "test-file";

    service.create_new_doc_at_cache(doc_path, true).unwrap();
    let docs1 = service.get_sub_doc_items("").unwrap();
    assert_eq!(docs1.len(), 1);

    let docs2 = service.get_sub_doc_items("").unwrap();
    assert_eq!(docs2.len(), 1);
    assert_eq!(docs1[0].id, docs2[0].id);
}

#[test]
fn test_get_docs_force_refresh() {
    let mut service = setup_test_service();
    let doc_path = "test-file";

    service.create_new_doc_at_cache(doc_path, true).unwrap();
    let docs1 = service.get_sub_doc_items("").unwrap();
    assert_eq!(docs1.len(), 1);

    service.refresh_doc(&vec![
        item(&["test-file.md"], false),
        item(&["another-file.md"], false),
    ]);
    let docs2 = service.get_sub_doc_items("").unwrap();
    assert_eq!(docs2.len(), 2);
}

#[test]
fn test_refresh_doc() {
    let mut service = setup_test_service();
    service.create_new_doc_at_cache("test-file", true).unwrap();

    service.refresh_doc(&vec![
        item(&["test-file.md"], false),
        item(&["another-file.md"], false),
    ]);

    let docs = service.get_sub_doc_items("").unwrap();
    assert_eq!(docs.len(), 2);
}

#[test]
fn test_ignore_directories() {
    let mut service = setup_test_service();
    service.refresh_doc(&vec![
        item(&[".git"], true),
        item(&[".git", "file.md"], false),
        item(&["visible-dir"], true),
        item(&["visible-dir", "file.md"], false),
    ]);

    let docs = service.get_sub_doc_items("").unwrap();
    assert_eq!(docs.len(), 1);
    assert_eq!(docs[0].name, "visible-dir");
    assert!(service.get_normalized_docs().get("visible-dir%2Ffile").is_some());
}

#[test]
fn test_nested_structure() {
    let mut service = setup_test_service();
    let dir_path = "parent";
    let child_path = "parent%2Fchild";
    let file_path = "parent%2Fchild%2Ffile";

    service.create_new_doc_at_cache(dir_path, false).unwrap();
    service.create_new_doc_at_cache(child_path, false).unwrap();
    service.create_new_doc_at_cache(file_path, true).unwrap();

    let docs = service.get_sub_doc_items("").unwrap();
    assert_eq!(docs.len(), 1);
    assert_eq!(docs[0].name, "parent");
    let sub_doc_items = service.get_sub_doc_items(dir_path).unwrap();
    assert_eq!(sub_doc_items.len(), 1);
    assert_eq!(sub_doc_items[0].name, "child");
    let sub_doc_items = service.get_sub_doc_items(child_path).unwrap();
    assert_eq!(sub_doc_items.len(), 1);
    assert_eq!(sub_doc_items[0].name, "file");
}

#[test]
fn test_sorting_directories_before_files() {
    let mut service = setup_test_service();
    service.create_new_doc_at_cache("z-file", true).unwrap();
    service.create_new_doc_at_cache("a-dir", false).unwrap();
    service.create_new_doc_at_cache("m-file", true).unwrap();
    service.create_new_doc_at_cache("b-dir", false).unwrap();

    let docs = service.get_sub_doc_items("").unwrap();
    assert_eq!(docs.len(), 4);
    assert_eq!(docs[0].name, "a-dir");
    assert!(!docs[0].is_file);
    assert_eq!(docs[1].name, "b-dir");
    assert!(!docs[1].is_file);
    assert_eq!(docs[2].name, "m-file");
    assert!(docs[2].is_file);
    assert_eq!(docs[3].name, "z-file");
    assert!(docs[3].is_file);
}

#[test]
fn test_sync_settings() {
    let mut service = setup_test_service();
    service.create_new_doc_at_cache("file", true).unwrap();
    let new_settings = Settings {
        doc_root_path: "/srv/docs/new-docs".to_string(),
        ignore_dirs: segs(&["custom-ignore"]),
    };

    service.sync_settings(&new_settings);

    let ignore_dirs = service.ignore_dirs();
    assert_eq!(ignore_dirs.len(), 1);
    assert_eq!(ignore_dirs[0], "custom-ignore");
    assert_eq!(service.doc_root_path(), "/srv/docs/new-docs");
    assert!(service.is_empty());
}
