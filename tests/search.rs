use model_catalog::catalog::{Catalog, Item};

fn ids(items: &[Item]) -> Vec<i64> {
    items.iter().map(|i| i.id).collect()
}

fn tags(t: &[&str]) -> Vec<String> {
    t.iter().map(|s| s.to_string()).collect()
}

#[test]
fn duplicate_only_returns_shared_hashes() {
    let mut c = Catalog::new();
    let a = c.insert_or_update(Some("one"), "one.pt", "lora", "aaa", 1).ok().unwrap();
    let b = c.insert_or_update(Some("two"), "two.pt", "lora", "aaa", 2).ok().unwrap();
    let x = c.insert_or_update(Some("three"), "three.pt", "lora", "bbb", 3).ok().unwrap();
    let (items, total) = c.search("", 10, 0, false, true);
    assert_eq!(ids(&items), vec![b, a]);
    assert_eq!(total, 2);
    assert!(!ids(&items).contains(&x));
    let (items, total) = c.search("", 10, 0, false, false);
    assert_eq!(ids(&items), vec![x, b, a]);
    assert_eq!(total, 3);
}

#[test]
fn duplicate_only_counts_live_entries_only() {
    let mut c = Catalog::new();
    let a = c.insert_or_update(Some("one"), "one.pt", "lora", "aaa", 1).ok().unwrap();
    let b = c.insert_or_update(Some("two"), "two.pt", "lora", "aaa", 2).ok().unwrap();
    c.mark_obsolete(a).ok().unwrap();
    let (items, total) = c.search("", 10, 0, false, true);
    assert!(items.is_empty());
    assert_eq!(total, 0);
    assert!(b > 0);
}

#[test]
fn name_match_only_when_tags_incomplete() {
    let mut c = Catalog::new();
    let n = c.insert_or_update(Some("My Red Cat"), "rc.pt", "lora", "h1", 1).ok().unwrap();
    let r = c.insert_or_update(Some("other"), "r.pt", "lora", "h2", 2).ok().unwrap();
    let k = c.insert_or_update(Some("another"), "k.pt", "lora", "h3", 3).ok().unwrap();
    c.set_tags(r, tags(&["red"])).ok().unwrap();
    c.set_tags(k, tags(&["cat"])).ok().unwrap();
    let (items, total) = c.search("red cat", 10, 0, false, false);
    assert_eq!(ids(&items), vec![n]);
    assert_eq!(total, 1);
}

#[test]
fn tag_search_needs_every_word() {
    let mut c = Catalog::new();
    let both = c.insert_or_update(Some("x1"), "ab.pt", "l", "", 1).ok().unwrap();
    let only_a = c.insert_or_update(Some("x2"), "a.pt", "l", "", 2).ok().unwrap();
    let only_b = c.insert_or_update(Some("x3"), "b.pt", "l", "", 3).ok().unwrap();
    c.set_tags(both, tags(&["A", "b", "c"])).ok().unwrap();
    c.set_tags(only_a, tags(&["a"])).ok().unwrap();
    c.set_tags(only_b, tags(&["b"])).ok().unwrap();
    let (items, total) = c.search("a B", 10, 0, true, false);
    assert_eq!(ids(&items), vec![both]);
    assert_eq!(total, 1);
}

#[test]
fn name_matches_come_before_tag_matches() {
    let mut c = Catalog::new();
    let tagged = c.insert_or_update(Some("plain"), "t.pt", "l", "", 9).ok().unwrap();
    let named = c.insert_or_update(Some("Anime style"), "n.pt", "l", "", 1).ok().unwrap();
    let both = c.insert_or_update(Some("anime too"), "b.pt", "l", "", 5).ok().unwrap();
    c.set_tags(tagged, tags(&["anime"])).ok().unwrap();
    c.set_tags(both, tags(&["anime"])).ok().unwrap();
    let (items, total) = c.search("anime", 10, 0, false, false);
    assert_eq!(ids(&items), vec![both, named, tagged]);
    assert_eq!(total, 3);
    let (items, total) = c.search("anime", 10, 0, true, false);
    assert_eq!(ids(&items), vec![tagged, both]);
    assert_eq!(total, 2);
}

#[test]
fn model_name_is_searched() {
    let mut c = Catalog::new();
    let a = c.insert_or_update(Some("file"), "a.pt", "l", "", 1).ok().unwrap();
    c.set_model_name(a, Some("Dreamy Model")).ok().unwrap();
    let (items, _) = c.search("DREAMY", 10, 0, false, false);
    assert_eq!(ids(&items), vec![a]);
}

#[test]
fn each_phase_is_paged_on_its_own() {
    let mut c = Catalog::new();
    let n1 = c.insert_or_update(Some("sky one"), "n1.pt", "l", "", 4).ok().unwrap();
    let n2 = c.insert_or_update(Some("sky two"), "n2.pt", "l", "", 3).ok().unwrap();
    let t1 = c.insert_or_update(Some("x"), "t1.pt", "l", "", 2).ok().unwrap();
    let t2 = c.insert_or_update(Some("y"), "t2.pt", "l", "", 1).ok().unwrap();
    c.set_tags(t1, tags(&["sky"])).ok().unwrap();
    c.set_tags(t2, tags(&["sky"])).ok().unwrap();
    let (items, total) = c.search("sky", 1, 0, false, false);
    assert_eq!(ids(&items), vec![n1, t1]);
    assert_eq!(total, 4);
    let (items, total) = c.search("sky", 1, 1, false, false);
    assert_eq!(ids(&items), vec![n2, t2]);
    assert_eq!(total, 4);
    let (items, total) = c.search("sky", 1, 2, false, false);
    assert!(items.is_empty());
    assert_eq!(total, 4);
}

#[test]
fn blank_text_tag_only_finds_nothing() {
    let mut c = Catalog::new();
    c.insert_or_update(Some("a"), "a.pt", "l", "", 1).ok().unwrap();
    let (items, total) = c.search("   ", 10, 0, true, false);
    assert!(items.is_empty());
    assert_eq!(total, 0);
}

#[test]
fn unnamed_entries_do_not_match_by_name() {
    let mut c = Catalog::new();
    c.insert_or_update(None, "a.pt", "l", "", 1).ok().unwrap();
    let (items, total) = c.search("", 10, 0, false, false);
    assert!(items.is_empty());
    assert_eq!(total, 0);
}

#[test]
fn tag_words_are_lowered() {
    let mut c = Catalog::new();
    let e = c.insert_or_update(Some("x"), "e.pt", "l", "", 1).ok().unwrap();
    let other = c.insert_or_update(Some("y"), "o.pt", "l", "", 2).ok().unwrap();
    c.set_tags(e, tags(&["é"])).ok().unwrap();
    c.set_tags(other, tags(&["e"])).ok().unwrap();
    let (items, total) = c.search("É", 10, 0, true, false);
    assert_eq!(ids(&items), vec![e]);
    assert_eq!(total, 1);
}

#[test]
fn search_words_takes_lowered_words() {
    let mut c = Catalog::new();
    let e = c.insert_or_update(Some("x"), "e.pt", "l", "", 1).ok().unwrap();
    c.set_tags(e, tags(&["sky"])).ok().unwrap();
    let (items, _) = c.search_words("SKY", &tags(&["sky"]), 10, 0, true, false);
    assert_eq!(ids(&items), vec![e]);
    let (items, _) = c.search_words("SKY", &tags(&["cloud"]), 10, 0, true, false);
    assert!(items.is_empty());
}
