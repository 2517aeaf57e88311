use md_docs::media::{ImgService, ProbeStep};
use md_docs::records::{ApiRes, ServerConfig};
use md_docs::search::{LineMatch, SearchService};
use md_docs::settings::{Settings, SettingsPatch, SettingsService};

fn segs(v: &[&str]) -> Vec<String> {
    v.iter().map(|s| s.to_string()).collect()
}

#[test]
fn magic_bytes_name_the_image_type() {
    let mut png = vec![0x89u8, 0x50, 0x4E, 0x47, 0x0D, 0x0A, 0x1A, 0x0A];
    png.extend_from_slice(&[0; 8]);
    assert_eq!(ImgService::infer_extension_from_magic_bytes(&png), "png");
    let mut jpg = vec![0xFFu8, 0xD8, 0xFF];
    jpg.extend_from_slice(&[0; 9]);
    assert_eq!(ImgService::infer_extension_from_magic_bytes(&jpg), "jpg");
    let mut gif = b"GIF89a".to_vec();
    gif.extend_from_slice(&[0; 6]);
    assert_eq!(ImgService::infer_extension_from_magic_bytes(&gif), "gif");
    let webp = b"RIFF\0\0\0\0WEBPVP8 ".to_vec();
    assert_eq!(ImgService::infer_extension_from_magic_bytes(&webp), "webp");
    let svg = b"<svg xmlns='x'>".to_vec();
    assert_eq!(ImgService::infer_extension_from_magic_bytes(&svg), "svg");
    let xml = b"<?xml version=1".to_vec();
    assert_eq!(ImgService::infer_extension_from_magic_bytes(&xml), "svg");
    assert_eq!(ImgService::infer_extension_from_magic_bytes(b"short"), "png");
    assert_eq!(ImgService::infer_extension_from_magic_bytes(&[7u8; 20]), "png");
}

#[test]
fn client_extension_wins_when_known() {
    let data = b"GIF89a......".to_vec();
    assert_eq!(ImgService::infer_extension("photo.JPEG", &data), "jpg");
    assert_eq!(ImgService::infer_extension("dir.v2/icon.Ico", &data), "ico");
    assert_eq!(ImgService::infer_extension("notes.txt", &data), "gif");
    assert_eq!(ImgService::infer_extension(".png", &data), "gif");
    assert_eq!(ImgService::infer_extension("pasted", &data), "gif");
}

#[test]
fn mime_follows_the_extension() {
    assert_eq!(ImgService::infer_mime("a/b.PNG"), "image/png");
    assert_eq!(ImgService::infer_mime("x.jpeg"), "image/jpeg");
    assert_eq!(ImgService::infer_mime("x.svg"), "image/svg+xml");
    assert_eq!(ImgService::infer_mime("x.ico"), "image/x-icon");
    assert_eq!(ImgService::infer_mime("x"), "application/octet-stream");
}

#[test]
fn file_names_match_case_insensitively_prefix_first() {
    let service = SearchService::new(&Settings {
        doc_root_path: "/d".to_string(),
        ignore_dirs: Vec::new(),
    });
    let files = vec![
        segs(&["a", "My Notes.md"]),
        segs(&["notes.md"]),
        segs(&["Zebra notes.md"]),
        segs(&["notes.txt"]),
        segs(&["other.md"]),
        segs(&["b", "Notebook.md"]),
    ];
    let found = service.search_file_names(&files, "NOTE");
    let names: Vec<&str> = found.iter().map(|m| m.name.as_str()).collect();
    assert_eq!(names, vec!["Notebook", "notes", "My Notes", "Zebra notes"]);
    assert_eq!(found[0].path, segs(&["b", "Notebook"]));
    assert_eq!(found[2].path, segs(&["a", "My Notes"]));
}

#[test]
fn search_helpers_read_paths() {
    assert!(SearchService::is_markdown(&segs(&["a", "b.md"])));
    assert!(!SearchService::is_markdown(&segs(&["a", "b.mdx"])));
    assert!(!SearchService::is_markdown(&segs(&[".md"])));
    assert_eq!(
        SearchService::fs_path_to_doc_path(&segs(&["a", "b.md"])),
        segs(&["a", "b"])
    );
    assert_eq!(SearchService::fs_path_to_doc_path(&segs(&["a", "b"])), segs(&["a", "b"]));
}

#[test]
fn search_settings_follow_sync() {
    let mut service = SearchService::new(&Settings {
        doc_root_path: "/d".to_string(),
        ignore_dirs: Vec::new(),
    });
    service.sync_settings(&Settings {
        doc_root_path: "/e".to_string(),
        ignore_dirs: segs(&["x"]),
    });
    assert_eq!(service.doc_root_path(), "/e");
    assert_eq!(service.ignore_dirs(), &segs(&["x"]));
}

#[test]
fn settings_patch_replaces_given_fields() {
    let mut service = SettingsService::new("/cfg/editor-settings.json".to_string(), Settings::initial());
    assert_eq!(service.get_settings().ignore_dirs, segs(&["imgs", "node_modules", "dist"]));
    let updated = service.update_settings(SettingsPatch {
        doc_root_path: Some("/home/u/docs".to_string()),
        ignore_dirs: None,
    });
    assert_eq!(updated.doc_root_path, "/home/u/docs");
    assert_eq!(updated.ignore_dirs, segs(&["imgs", "node_modules", "dist"]));
    let updated = service.update_settings(SettingsPatch {
        doc_root_path: None,
        ignore_dirs: Some(segs(&[".git"])),
    });
    assert_eq!(updated.doc_root_path, "/home/u/docs");
    assert_eq!(updated.ignore_dirs, segs(&[".git"]));
}

#[test]
fn responses_carry_data_or_message() {
    let ok = ApiRes::success(5u32);
    assert_eq!((ok.data, ok.code, ok.message), (Some(5), 0, None));
    let err = ApiRes::error("bad".to_string());
    assert_eq!((err.data, err.code, err.message), (None, 0, Some("bad".to_string())));
    let config = ServerConfig::local();
    assert_eq!((config.host.as_str(), config.port), ("127.0.0.1", 3024));
}

#[test]
fn image_service_keeps_the_root() {
    let service = ImgService::new(&Settings {
        doc_root_path: "/d".to_string(),
        ignore_dirs: Vec::new(),
    });
    assert_eq!(service.doc_root_path(), "/d");
}

#[test]
fn content_hash_is_the_digest_prefix_in_hex() {
    assert_eq!(ImgService::content_hash(b""), "e3b0c44298fc1c14");
    assert_eq!(ImgService::content_hash(b"abc"), "ba7816bf8f01cfea");
}

#[test]
fn asset_names_probe_with_a_counter() {
    assert_eq!(ImgService::asset_name("abcd", 0, "png"), "abcd.png");
    assert_eq!(ImgService::asset_name("abcd", 1, "png"), "abcd_1.png");
    assert_eq!(ImgService::asset_name("abcd", 42, "jpg"), "abcd_42.jpg");
    assert_eq!(ImgService::asset_url("abcd_1.png"), "/_assets/abcd_1.png");
}

#[test]
fn content_search_filters_paths_case_insensitively() {
    let rel = segs(&["Guides", "Setup.md"]);
    assert!(SearchService::passes_path_filters(&rel, &Vec::new(), &Vec::new()));
    assert!(SearchService::passes_path_filters(&rel, &segs(&["guides/"]), &Vec::new()));
    assert!(!SearchService::passes_path_filters(&rel, &segs(&["drafts"]), &Vec::new()));
    assert!(!SearchService::passes_path_filters(&rel, &Vec::new(), &segs(&["SETUP"])));
    assert!(!SearchService::passes_path_filters(&rel, &segs(&["guides"]), &segs(&["setup"])));
}

#[test]
fn content_results_keep_files_with_lines_ordered_by_name() {
    let service = SearchService::new(&Settings {
        doc_root_path: "/d".to_string(),
        ignore_dirs: Vec::new(),
    });
    let line = |n: u64, t: &str| LineMatch { line_number: n, line_content: t.to_string() };
    let files = vec![
        (segs(&["b", "zeta.md"]), vec![line(3, "x")]),
        (segs(&["empty.md"]), Vec::new()),
        (segs(&["Alpha.md"]), vec![line(1, "y"), line(7, "z")]),
        (segs(&["beta.md"]), vec![line(2, "w")]),
    ];
    let found = service.content_matches(&files);
    let names: Vec<&str> = found.iter().map(|f| f.name.as_str()).collect();
    assert_eq!(names, vec!["Alpha", "beta", "zeta"]);
    assert_eq!(found[0].matches.len(), 2);
    assert_eq!(found[0].matches[1].line_number, 7);
    assert_eq!(found[2].path, segs(&["b", "zeta"]));
}

#[test]
fn asset_probe_writes_reuses_or_moves_on() {

    match ImgService::resolve_hash_name_step("ab", 0, "png", false, false) {
        ProbeStep::Write(n) => assert_eq!(n, "ab.png"),
        _ => panic!("expected a write"),
    }
    match ImgService::resolve_hash_name_step("ab", 2, "png", true, true) {
        ProbeStep::Reuse(n) => assert_eq!(n, "ab_2.png"),
        _ => panic!("expected a reuse"),
    }
    assert!(matches!(ImgService::resolve_hash_name_step("ab", 2, "png", true, false), ProbeStep::Next(3)));
    assert!(matches!(ImgService::resolve_hash_name_step("ab", u32::MAX, "png", true, false), ProbeStep::Exhausted));
}
