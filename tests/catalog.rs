use model_catalog::catalog::{Catalog, CatalogError, Item};

fn ids(items: &[Item]) -> Vec<i64> {
    items.iter().map(|i| i.id).collect()
}

fn count_key(c: &Catalog, path: &str, label: &str) -> usize {
    c.entries().iter().filter(|e| e.path == path && e.base_label == label).count()
}

#[test]
fn observe_twice_single_entry() {
    let mut c = Catalog::new();
    let a = c.insert_or_update(Some("a"), "a.safetensors", "lora", "aaa", 10).ok().unwrap();
    let b = c.insert_or_update(Some("a"), "a.safetensors", "lora", "aaa", 10).ok().unwrap();
    assert_eq!(a, b);
    assert_eq!(c.entries().len(), 1);
    assert_eq!(count_key(&c, "a.safetensors", "lora"), 1);
    assert!(c.entries()[0].live);
}

#[test]
fn observe_refreshes_existing_entry() {
    let mut c = Catalog::new();
    let a = c.insert_or_update(Some("old"), "x.ckpt", "ckpt", "h1", 1).ok().unwrap();
    c.set_note(a, "keep me").ok().unwrap();
    c.mark_obsolete_all();
    assert!(!c.entries()[0].live);
    let b = c.insert_or_update(Some("new"), "x.ckpt", "ckpt", "h2", 5).ok().unwrap();
    assert_eq!(a, b);
    let e = &c.entries()[0];
    assert!(e.live);
    assert_eq!(e.name.as_deref(), Some("new"));
    assert_eq!(e.hash, "h2");
    assert_eq!(e.updated_at, 5);
    assert_eq!(e.note, "keep me");
}

#[test]
fn same_path_other_label_is_other_entry() {
    let mut c = Catalog::new();
    let a = c.insert_or_update(None, "m.pt", "lora", "", 1).ok().unwrap();
    let b = c.insert_or_update(None, "m.pt", "vae", "", 1).ok().unwrap();
    assert_ne!(a, b);
    assert_eq!(c.entries().len(), 2);
}

#[test]
fn scan_sweep_removes_unobserved() {
    let mut c = Catalog::new();
    c.insert_or_update(Some("y"), "y.pt", "lora", "yy", 1).ok().unwrap();
    c.insert_or_update(Some("x"), "x.pt", "lora", "xx", 1).ok().unwrap();
    c.mark_obsolete_all();
    c.insert_or_update(Some("x"), "x.pt", "lora", "xx", 2).ok().unwrap();
    let removed = c.clean();
    assert_eq!(removed, 1);
    assert_eq!(c.entries().len(), 1);
    assert_eq!(c.entries()[0].path, "x.pt");
    assert!(c.entries()[0].live);
}

#[test]
fn sweep_without_scan_removes_nothing() {
    let mut c = Catalog::new();
    c.insert_or_update(None, "x.pt", "lora", "", 1).ok().unwrap();
    assert_eq!(c.clean(), 0);
    assert_eq!(c.entries().len(), 1);
}

#[test]
fn mark_obsolete_clears_one_entry() {
    let mut c = Catalog::new();
    let a = c.insert_or_update(None, "a.pt", "lora", "same", 1).ok().unwrap();
    c.insert_or_update(None, "b.pt", "lora", "same", 1).ok().unwrap();
    let (path, label) = c.mark_obsolete(a).ok().unwrap();
    assert_eq!(path, "a.pt");
    assert_eq!(label, "lora");
    assert!(!c.entries()[0].live);
    assert!(c.entries()[1].live);
    assert!(matches!(c.mark_obsolete(99), Err(CatalogError::NotFound)));
}

#[test]
fn mark_obsolete_ids_skips_missing() {
    let mut c = Catalog::new();
    let a = c.insert_or_update(None, "a.pt", "lora", "", 1).ok().unwrap();
    let b = c.insert_or_update(None, "b.pt", "vae", "", 1).ok().unwrap();
    let keys = c.mark_obsolete_ids(&vec![a, 42, b]);
    assert_eq!(keys, vec![("a.pt".to_string(), "lora".to_string()), ("b.pt".to_string(), "vae".to_string())]);
    assert!(c.entries().iter().all(|e| !e.live));
}

#[test]
fn get_by_id_and_hash() {
    let mut c = Catalog::new();
    let a = c.insert_or_update(Some("A"), "a.pt", "lora", "abc", 1).ok().unwrap();
    let item = c.get_by_id(a).ok().unwrap();
    assert_eq!(item.id, a);
    assert_eq!(item.name.as_deref(), Some("A"));
    assert_eq!(item.path, "a.pt");
    assert_eq!(item.base_label, "lora");
    assert!(matches!(c.get_by_id(a + 1), Err(CatalogError::NotFound)));
    assert_eq!(c.get_by_hash("abc").ok().unwrap().id, a);
    assert!(matches!(c.get_by_hash("ABC"), Err(CatalogError::NotFound)));
    c.mark_obsolete(a).ok().unwrap();
    assert!(c.get_by_hash("abc").is_err());
    assert!(matches!(c.get_by_id(a), Err(CatalogError::NotFound)));
}

#[test]
fn set_tags_unknown_id() {
    let mut c = Catalog::new();
    assert!(matches!(c.set_tags(7, vec!["a".to_string()]), Err(CatalogError::NotFound)));
    assert!(matches!(c.set_note(7, "n"), Err(CatalogError::NotFound)));
    assert!(matches!(c.set_model_name(7, Some("m")), Err(CatalogError::NotFound)));
}

#[test]
fn get_lists_live_entries_newest_first() {
    let mut c = Catalog::new();
    let a = c.insert_or_update(None, "a.pt", "l", "", 1).ok().unwrap();
    let b = c.insert_or_update(None, "b.pt", "l", "", 3).ok().unwrap();
    let d = c.insert_or_update(None, "d.pt", "l", "", 2).ok().unwrap();
    let e = c.insert_or_update(None, "e.pt", "l", "", 3).ok().unwrap();
    c.mark_obsolete(d).ok().unwrap();
    let (items, total) = c.get(10, 0);
    assert_eq!(total, 3);
    assert_eq!(ids(&items), vec![b, e, a]);
    let (items, total) = c.get(1, 1);
    assert_eq!(total, 3);
    assert_eq!(ids(&items), vec![e]);
    let (items, _) = c.get(5, 7);
    assert!(items.is_empty());
}
