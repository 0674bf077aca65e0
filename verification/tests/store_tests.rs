use banyan_s3::store::StagingStore;

fn name(parts: &[&str]) -> Vec<String> {
    parts.iter().map(|p| String::from(*p)).collect()
}

#[test]
fn get_after_upload() {
    let mut s = StagingStore::new(10);
    s.upload(name(&["root", "1"]), vec![1, 2, 3]);
    let d = s.get(&name(&["root", "1"]));
    assert_eq!(d, Some(&vec![1, 2, 3]));
    assert_eq!(s.get(&name(&["root", "2"])), None);
}

#[test]
fn last_write_wins_on_same_name() {
    let mut s = StagingStore::new(10);
    s.upload(name(&["root", "1"]), vec![1]);
    s.upload(name(&["root", "1"]), vec![2, 2]);
    assert_eq!(s.get(&name(&["root", "1"])), Some(&vec![2, 2]));
}

#[test]
fn delete_removes_and_is_idempotent() {
    let mut s = StagingStore::new(10);
    s.upload(name(&["a"]), vec![9]);
    s.delete(&name(&["a"]));
    assert_eq!(s.get(&name(&["a"])), None);
    s.delete(&name(&["a"]));
    assert_eq!(s.get(&name(&["a"])), None);
}

#[test]
fn list_splits_leaves_and_sub_prefixes() {
    let mut s = StagingStore::new(100);
    s.upload(name(&["r", "1"]), vec![1]);
    s.upload(name(&["r", "marker"]), vec![2]);
    s.upload(name(&["r", "deep", "leaf"]), vec![3]);
    s.upload(name(&["other", "1"]), vec![4]);
    let page = s.list(&name(&["r"]), 0);
    assert!(page.next_token.is_none());
    assert_eq!(page.items.len(), 2);
    assert!(page.items.contains(&name(&["r", "1"])));
    assert!(page.items.contains(&name(&["r", "marker"])));
    assert_eq!(page.sub_prefixes, vec![String::from("deep")]);
}

#[test]
fn list_paginates_with_continuation_tokens() {
    let mut s = StagingStore::new(1);
    s.upload(name(&["r", "1"]), vec![1]);
    s.upload(name(&["r", "2"]), vec![2]);
    s.upload(name(&["r", "3"]), vec![3]);
    let mut token = 0;
    let mut seen: Vec<Vec<String>> = Vec::new();
    loop {
        let page = s.list(&name(&["r"]), token);
        assert!(page.items.len() <= 1);
        for it in page.items {
            seen.push(it);
        }
        match page.next_token {
            Some(t) => token = t,
            None => break,
        }
    }
    assert_eq!(seen.len(), 3);
    assert!(seen.contains(&name(&["r", "1"])));
    assert!(seen.contains(&name(&["r", "2"])));
    assert!(seen.contains(&name(&["r", "3"])));
}

#[test]
fn tokens_survive_deletions_between_pages() {
    let mut s = StagingStore::new(1);
    s.upload(name(&["r", "1"]), vec![1]);
    s.upload(name(&["r", "2"]), vec![2]);
    let first = s.list(&name(&["r"]), 0);
    let token = first.next_token.expect("a second page is owed");
    // deleting the already-listed object must not disturb the cursor
    s.delete(&name(&["r", "1"]));
    let second = s.list(&name(&["r"]), token);
    let mut rest = second.items;
    let mut token2 = second.next_token;
    while let Some(t) = token2 {
        let more = s.list(&name(&["r"]), t);
        rest.extend(more.items);
        token2 = more.next_token;
    }
    assert_eq!(rest, vec![name(&["r", "2"])]);
}
