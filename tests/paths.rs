use model_catalog::api::{find_items, page_window, total_pages, CommonResponse, SearchQuery};
use model_catalog::catalog::{Catalog, CatalogError};
use model_catalog::locations::{
    download_target, get_abs_path, guess_location_lowered, guess_saved_location, locate, parent_dir,
    saved_location, DownloadError,
};
use model_catalog::paths::{get_relative_path, is_under, join_path, set_extension};

fn roots() -> Vec<(String, String)> {
    vec![("lora".to_string(), "/models/lora".to_string()), ("ckpt".to_string(), "/models/ckpt/".to_string())]
}

#[test]
fn joining_paths() {
    assert_eq!(join_path("/a", "b"), "/a/b");
    assert_eq!(join_path("/a/", "b"), "/a/b");
    assert_eq!(join_path("/a", "/b"), "/b");
    assert_eq!(join_path("", "b"), "b");
}

#[test]
fn relative_paths() {
    assert_eq!(get_relative_path("/a", "/a/b/c.pt").ok().unwrap(), "b/c.pt");
    assert_eq!(get_relative_path("/a/", "/a/b").ok().unwrap(), "b");
    assert_eq!(get_relative_path("/a", "/a").ok().unwrap(), "");
    assert!(get_relative_path("/a", "/ab/c").is_err());
    assert!(is_under("/a/b", "/a"));
    assert!(!is_under("/ab", "/a"));
}

#[test]
fn replacing_extensions() {
    assert_eq!(set_extension("/m/x.safetensors", "json"), "/m/x.json");
    assert_eq!(set_extension("/m/x.safetensors", "model.json"), "/m/x.model.json");
    assert_eq!(set_extension("/m/x", "json"), "/m/x.json");
    assert_eq!(set_extension("/m/.hidden", "json"), "/m/.hidden.json");
    assert_eq!(set_extension("/m/x.tar.gz", ""), "/m/x.tar");
    assert_eq!(set_extension("/m/", "json"), "/m/");
}

#[test]
fn absolute_paths_of_an_entry() {
    let (model, json, model_json, preview) = get_abs_path(&roots(), "lora", "sub/x.safetensors", "base_", "jpeg");
    assert_eq!(model, "/models/lora/sub/x.safetensors");
    assert_eq!(json, "/models/lora/sub/x.json");
    assert_eq!(model_json, "/models/lora/sub/x.model.json");
    assert_eq!(preview, "/base_lora/sub/x.jpeg");
    let (model, json, _, preview) = get_abs_path(&roots(), "none", "x.pt", "base_", "jpeg");
    assert!(model.is_empty() && json.is_empty() && preview.is_empty());
}

#[test]
fn download_must_stay_in_roots() {
    assert_eq!(download_target(&roots(), "/models/lora/new", "f.pt").ok().unwrap(), "/models/lora/new/f.pt");
    assert!(matches!(download_target(&roots(), "/tmp", "f.pt"), Err(DownloadError::OutsideRoots)));
    assert!(matches!(download_target(&roots(), "/models/lorax", "f.pt"), Err(DownloadError::OutsideRoots)));
    let (label, rel) = locate(&roots(), "/models/ckpt/a/b.ckpt").unwrap();
    assert_eq!(label, "ckpt");
    assert_eq!(rel, "a/b.ckpt");
    assert!(locate(&roots(), "/elsewhere/b.ckpt").is_none());
}

#[test]
fn guessing_locations() {
    assert_eq!(guess_saved_location("/m", "LoRA"), "/m/loras");
    assert_eq!(guess_saved_location("/m", "hypernetwork"), "/m/hypernetworks");
    assert_eq!(guess_saved_location("/m", "CHECKPOINT"), "/m/checkpoints");
    assert_eq!(guess_saved_location("/m", "TextualInversion"), "/m/textualinversion");
    assert_eq!(guess_location_lowered("/m", "VAE", "vae"), "/m/vae");
}

#[test]
fn parent_directories() {
    assert_eq!(parent_dir("/a/b"), "/a");
    assert_eq!(parent_dir("/a"), "/");
    assert_eq!(parent_dir("a"), "");
    assert_eq!(parent_dir("/"), ".");
    assert_eq!(parent_dir(""), ".");
}

#[test]
fn saved_location_prefers_downloaded_file() {
    let mut c = Catalog::new();
    c.insert_or_update(Some("x"), "sub/x.pt", "lora", "abcdef", 1).ok().unwrap();
    let dirs = vec![("lora".to_string(), "/dl/lora".to_string())];
    let r = saved_location(&c, &roots(), &dirs, "LORA", Some("ABCDEF"));
    assert!(r.is_downloaded);
    assert_eq!(r.saved_location, "/models/lora/sub");
    let r = saved_location(&c, &roots(), &dirs, "LORA", Some("other"));
    assert!(!r.is_downloaded);
    assert_eq!(r.saved_location, "/dl/lora");
    let r = saved_location(&c, &roots(), &dirs, "Checkpoint", None);
    assert!(!r.is_downloaded);
    assert_eq!(r.saved_location, "/models/ckpt/checkpoints");
    let r = saved_location(&c, &Vec::new(), &Vec::new(), "Poses", None);
    assert_eq!(r.saved_location, "/poses");
}

#[test]
fn page_windows() {
    assert_eq!(page_window(None, None, 20), (20, 0));
    assert_eq!(page_window(Some(3), Some(10), 20), (10, 20));
    assert_eq!(page_window(Some(0), Some(0), 20), (1, 0));
    assert_eq!(page_window(Some(-4), Some(-1), 0), (1, 0));
    assert_eq!(page_window(Some(i64::MAX), Some(i64::MAX), 1).1, usize::MAX);
    assert_eq!(total_pages(0, 10), 1);
    assert_eq!(total_pages(25, 10), 3);
    assert_eq!(total_pages(u64::MAX, 1), u64::MAX);
}

#[test]
fn responses() {
    let r = CommonResponse::from_err("oops");
    assert_eq!(r.err.as_deref(), Some("oops"));
    assert!(r.msg.is_empty());
    let r = CommonResponse::from_msg("done");
    assert_eq!(r.msg, "done");
    assert!(r.err.is_none());
}

fn query(id: Option<i64>, search: &str) -> SearchQuery {
    SearchQuery { id, page: None, count: None, search: search.to_string(), tag_only: None, duplicate_only: None }
}

#[test]
fn item_query_by_id_or_search() {
    let mut c = Catalog::new();
    let a = c.insert_or_update(Some("alpha"), "a.pt", "lora", "", 1).ok().unwrap();
    let b = c.insert_or_update(Some("beta"), "b.pt", "lora", "", 2).ok().unwrap();
    let r = find_items(&c, &query(Some(b), "alpha"), 5);
    assert_eq!(r.items.len(), 1);
    assert_eq!(r.items[0].id, b);
    assert_eq!(r.total, 1);
    assert!(r.err.is_none());
    let r = find_items(&c, &query(Some(99), ""), 5);
    assert!(r.items.is_empty());
    assert_eq!(r.total, 0);
    assert!(matches!(r.err, Some(CatalogError::NotFound)));
    let r = find_items(&c, &query(None, "ALPHA"), 5);
    assert_eq!(r.items.iter().map(|i| i.id).collect::<Vec<_>>(), vec![a]);
    assert_eq!(r.limit, 5);
}

#[test]
fn relative_paths_skip_repeated_separators() {
    assert_eq!(get_relative_path("/a", "/a//b").ok().unwrap(), "b");
    assert_eq!(get_relative_path("/a/", "/a").ok().unwrap(), "");
    assert_eq!(get_relative_path("/a//", "/a/b/").ok().unwrap(), "b/");
    assert_eq!(get_relative_path("/", "/x/y").ok().unwrap(), "x/y");
    assert!(get_relative_path("/", "x/y").is_err());
    assert_eq!(get_relative_path("", "x/y").ok().unwrap(), "x/y");
    assert!(get_relative_path("", "/x").is_err());
    assert!(is_under("/a", "/a/"));
    let (label, rel) = locate(&roots(), "/models/lora//sub/x.pt").unwrap();
    assert_eq!(label, "lora");
    assert_eq!(rel, "sub/x.pt");
}

#[test]
fn saved_location_guesses_from_lowered_category() {
    let c = Catalog::new();
    let r = saved_location(&c, &roots(), &Vec::new(), "Chec\u{212A}point", None);
    assert!(!r.is_downloaded);
    assert_eq!(r.saved_location, "/models/ckpt/checkpoints");
    let dirs = vec![("checkpoint".to_string(), "/dl/ckpt".to_string())];
    let r = saved_location(&c, &roots(), &dirs, "CHECKPOINT", None);
    assert_eq!(r.saved_location, "/dl/ckpt");
}
