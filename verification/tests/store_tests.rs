use shelf::book::Book;
use shelf::store::BookmarkStore;
use shelf::store::ShelfError;

fn book(category: &str, tag: &str, path: &str) -> Book {
    Book::new(category.to_owned(), tag.to_owned(), path.to_owned())
}

fn keys(books: &[Book]) -> Vec<(String, String, String)> {
    books
        .iter()
        .map(|b| (b.category.clone(), b.tag.clone(), b.path.clone()))
        .collect()
}

#[test]
fn store_then_read_returns_same() {
    let mut s = BookmarkStore::new();
    let r = s.store(book("work", "proj", "/home/u/proj"));
    assert!(r.is_ok());
    let got = s.read("work", "proj").unwrap();
    assert_eq!(got.category, "work");
    assert_eq!(got.tag, "proj");
    assert_eq!(got.path, "/home/u/proj");
}

#[test]
fn free_store_returns_persisted_record() {
    let mut s = BookmarkStore::new();
    let b = shelf::store::store(&mut s, "work", "proj", "/home/u/proj").unwrap();
    assert_eq!(b.category, "work");
    assert_eq!(b.tag, "proj");
    assert_eq!(b.path, "/home/u/proj");
    let got = shelf::store::read(&s, "work", "proj").unwrap();
    assert_eq!(got.path, "/home/u/proj");
}

#[test]
fn duplicate_key_rejected_and_first_kept() {
    let mut s = BookmarkStore::new();
    s.store(book("a", "1", "/p/one")).unwrap();
    let r = s.store(book("a", "1", "/p/two"));
    assert_eq!(r, Err(ShelfError::DuplicateKey));
    let got = s.read("a", "1").unwrap();
    assert_eq!(got.path, "/p/one");
    assert_eq!(s.visit(None).len(), 1);
}

#[test]
fn duplicate_path_rejected() {
    let mut s = BookmarkStore::new();
    s.store(book("a", "1", "/p/shared")).unwrap();
    let r = s.store(book("b", "2", "/p/shared"));
    assert_eq!(r, Err(ShelfError::DuplicatePath));
    assert_eq!(s.visit(None).len(), 1);
}

#[test]
fn duplicate_key_reported_before_duplicate_path() {
    let mut s = BookmarkStore::new();
    s.store(book("a", "1", "/p/shared")).unwrap();
    let r = s.store(book("a", "1", "/p/shared"));
    assert_eq!(r, Err(ShelfError::DuplicateKey));
}

#[test]
fn visit_all_ordered_by_category_then_tag() {
    let mut s = BookmarkStore::new();
    s.store(book("b", "1", "/p1")).unwrap();
    s.store(book("a", "2", "/p2")).unwrap();
    s.store(book("a", "1", "/p3")).unwrap();
    let all = s.visit(None);
    assert_eq!(
        keys(&all),
        vec![
            ("a".to_owned(), "1".to_owned(), "/p3".to_owned()),
            ("a".to_owned(), "2".to_owned(), "/p2".to_owned()),
            ("b".to_owned(), "1".to_owned(), "/p1".to_owned()),
        ]
    );
}

#[test]
fn visit_category_only_and_tag_ordered() {
    let mut s = BookmarkStore::new();
    s.store(book("b", "1", "/p1")).unwrap();
    s.store(book("a", "9", "/p2")).unwrap();
    s.store(book("a", "2", "/p3")).unwrap();
    let only_a = s.visit(Some("a"));
    assert_eq!(
        keys(&only_a),
        vec![
            ("a".to_owned(), "2".to_owned(), "/p3".to_owned()),
            ("a".to_owned(), "9".to_owned(), "/p2".to_owned()),
        ]
    );
    let none_c = s.visit(Some("c"));
    assert!(none_c.is_empty());
}

#[test]
fn visit_orders_by_code_point() {
    let mut s = BookmarkStore::new();
    s.store(book("a", "\u{e9}", "/p1")).unwrap();
    s.store(book("a", "z", "/p2")).unwrap();
    let all = s.visit(None);
    assert_eq!(all[0].tag, "z");
    assert_eq!(all[1].tag, "\u{e9}");
}

#[test]
fn throw_tag_removes_exactly_one() {
    let mut s = BookmarkStore::new();
    s.store(book("a", "1", "/p1")).unwrap();
    s.store(book("a", "2", "/p2")).unwrap();
    s.store(book("b", "1", "/p3")).unwrap();
    s.throw("a", Some("1"));
    assert_eq!(s.read("a", "1").unwrap_err(), ShelfError::NotFound);
    assert_eq!(s.read("a", "2").unwrap().path, "/p2");
    assert_eq!(s.read("b", "1").unwrap().path, "/p3");
    assert_eq!(s.visit(None).len(), 2);
}

#[test]
fn throw_category_leaves_others() {
    let mut s = BookmarkStore::new();
    s.store(book("a", "1", "/p1")).unwrap();
    s.store(book("a", "2", "/p2")).unwrap();
    s.store(book("b", "1", "/p3")).unwrap();
    shelf::store::throw(&mut s, "a", None);
    let all = s.visit(None);
    assert_eq!(
        keys(&all),
        vec![("b".to_owned(), "1".to_owned(), "/p3".to_owned())]
    );
}

#[test]
fn throw_absent_is_noop() {
    let mut s = BookmarkStore::new();
    s.store(book("a", "1", "/p1")).unwrap();
    s.throw("a", Some("nope"));
    s.throw("zzz", None);
    assert_eq!(s.visit(None).len(), 1);
    assert_eq!(s.read("a", "1").unwrap().path, "/p1");
}

#[test]
fn read_missing_is_not_found_and_store_unchanged() {
    let mut s = BookmarkStore::new();
    assert_eq!(s.read("no", "where").unwrap_err(), ShelfError::NotFound);
    assert!(s.visit(None).is_empty());
    s.store(book("a", "1", "/p1")).unwrap();
    assert_eq!(s.read("a", "2").unwrap_err(), ShelfError::NotFound);
    assert_eq!(s.visit(None).len(), 1);
}

#[test]
fn delete_then_store_updates_path() {
    let mut s = BookmarkStore::new();
    s.store(book("a", "1", "/old")).unwrap();
    s.throw("a", Some("1"));
    s.store(book("a", "1", "/new")).unwrap();
    assert_eq!(s.read("a", "1").unwrap().path, "/new");
}

#[test]
fn freed_path_can_be_reused() {
    let mut s = BookmarkStore::new();
    s.store(book("a", "1", "/p")).unwrap();
    s.throw("a", Some("1"));
    let r = s.store(book("b", "2", "/p"));
    assert!(r.is_ok());
    assert_eq!(s.read("b", "2").unwrap().path, "/p");
}

#[test]
fn empty_store_visit_is_empty() {
    let s = BookmarkStore::new();
    assert!(s.visit(None).is_empty());
    assert!(s.visit(Some("a")).is_empty());
}
