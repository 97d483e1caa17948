//! The bookmark store: an ordered table of records with unique keys and
//! unique paths, and the four operations on it.
//!
//! The table is the in-memory image of the persisted store.  The
//! command-line shell loads the persisted rows into a [`BookmarkStore`],
//! lets the verified operations decide what the table holds, and writes
//! the result back; every rule about keys, paths and ordering is enforced
//! and proved here.

use vstd::prelude::*;
use crate::book::Book;
use crate::book::BookView;
use crate::book::key_eq_exec;
use crate::book::key_lt;
use crate::book::key_lt_exec;
use crate::book::lemma_key_lt_connex;
use crate::book::lemma_key_lt_irrefl;
use crate::book::lemma_key_lt_trans;
use crate::book::same_key;
use crate::book::valid_book;
use crate::order::str_eq;

verus! {

/// Failures of the store and of the path handling around it.
///
/// The store itself produces `DuplicateKey`, `DuplicatePath` and
/// `NotFound`; the shell maps filesystem and storage failures onto the
/// remaining kinds before or after calling into the store.
#[derive(Debug, Clone, Copy, PartialEq, Eq, Structural)]
pub enum ShelfError {
    /// The supplied or defaulted path does not exist on the filesystem.
    PathNotFound,
    /// The path exists but could not be resolved to a canonical form.
    PathResolutionError,
    /// `(category, tag)` is already bookmarked.
    DuplicateKey,
    /// The canonical path is already bookmarked under another key.
    DuplicatePath,
    /// No record matches the requested key.
    NotFound,
    /// The backing file could not be opened or created.
    StorageUnavailable,
}

/// The views of a sequence of records.
pub open spec fn views(s: Seq<Book>) -> Seq<BookView> {
    s.map_values(|b: Book| b@)
}

/// Some record in `s` has key `(c, t)`.
pub open spec fn has_key(s: Seq<BookView>, c: Seq<char>, t: Seq<char>) -> bool {
    exists|i: int| 0 <= i < s.len() && (#[trigger] s[i]).category == c && s[i].tag == t
}

/// Some record in `s` stores `path`.
pub open spec fn has_path(s: Seq<BookView>, path: Seq<char>) -> bool {
    exists|i: int| 0 <= i < s.len() && (#[trigger] s[i]).path == path
}

/// Index of the record with key `(c, t)`; meaningful when [`has_key`] holds.
pub open spec fn key_index(s: Seq<BookView>, c: Seq<char>, t: Seq<char>) -> int {
    choose|i: int| 0 <= i < s.len() && (#[trigger] s[i]).category == c && s[i].tag == t
}

/// The record with key `(c, t)`; meaningful when [`has_key`] holds.
pub open spec fn book_at(s: Seq<BookView>, c: Seq<char>, t: Seq<char>) -> BookView {
    s[key_index(s, c, t)]
}

/// The table invariant: strictly ascending by `(category, tag)` — so keys
/// are unique — paths pairwise distinct, and every record valid.
pub open spec fn wf_seq(s: Seq<BookView>) -> bool {
    &&& forall|i: int, j: int| #![trigger s[i], s[j]] 0 <= i < j < s.len() ==> key_lt(s[i], s[j])
    &&& forall|i: int, j: int| #![trigger s[i], s[j]] 0 <= i < j < s.len() ==> s[i].path != s[j].path
    &&& forall|i: int| 0 <= i < s.len() ==> valid_book(#[trigger] s[i])
}

/// Does record `b` fall under the optional category filter?
pub open spec fn cat_match(b: BookView, c: Option<Seq<char>>) -> bool {
    match c {
        None => true,
        Some(cc) => b.category == cc,
    }
}

/// The records `Visit` returns: those matching the filter, in table order.
pub open spec fn selected(s: Seq<BookView>, c: Option<Seq<char>>) -> Seq<BookView> {
    s.filter(|b: BookView| cat_match(b, c))
}

/// Does record `b` survive `Throw(c, t)`?  With a tag, only the one record
/// under that key goes; without, the whole category goes.
pub open spec fn kept(b: BookView, c: Seq<char>, t: Option<Seq<char>>) -> bool {
    match t {
        Some(tt) => !(b.category == c && b.tag == tt),
        None => b.category != c,
    }
}

/// The records remaining after `Throw(c, t)`.
pub open spec fn remaining(s: Seq<BookView>, c: Seq<char>, t: Option<Seq<char>>) -> Seq<
    BookView,
> {
    s.filter(|b: BookView| kept(b, c, t))
}

/// Where a new record enters the ordered table.
pub open spec fn insert_sorted(s: Seq<BookView>, b: BookView) -> Seq<BookView>
    decreases s.len(),
{
    if s.len() == 0 {
        seq![b]
    } else if key_lt(b, s[0]) {
        seq![b] + s
    } else {
        seq![s[0]] + insert_sorted(s.drop_first(), b)
    }
}

/// View of an optional borrowed string.
pub open spec fn opt_view(c: Option<&str>) -> Option<Seq<char>> {
    match c {
        None => None,
        Some(cc) => Some(cc@),
    }
}

/// A subsequence selected by `filter` keeps the table invariant, and all
/// its records come from the table.
pub proof fn lemma_filter_wf(s: Seq<BookView>, pred: spec_fn(BookView) -> bool)
    requires
        wf_seq(s),
    ensures
        wf_seq(s.filter(pred)),
        forall|x: BookView| #[trigger] s.filter(pred).contains(x) ==> s.contains(x),
    decreases s.len(),
{
    reveal(Seq::filter);
    if s.len() > 0 {
        let s1 = s.drop_last();
        let f1 = s1.filter(pred);
        let f = s.filter(pred);
        assert(wf_seq(s1)) by {
            assert forall|i: int| 0 <= i < s1.len() implies valid_book(#[trigger] s1[i]) by {
                assert(s1[i] == s[i]);
            }
        }
        lemma_filter_wf(s1, pred);
        assert forall|x: BookView| #[trigger] f.contains(x) implies s.contains(x) by {
            let i = choose|i: int| 0 <= i < f.len() && f[i] == x;
            if pred(s.last()) && i == f.len() - 1 {
                assert(s[s.len() - 1] == x);
            } else {
                assert(f1[i] == x);
                assert(f1.contains(x));
                let k = choose|k: int| 0 <= k < s1.len() && s1[k] == x;
                assert(s[k] == x);
            }
        }
        if pred(s.last()) {
            assert(f == f1.push(s.last()));
            assert forall|i: int, j: int| #![trigger f[i], f[j]] 0 <= i < j < f.len() implies
                key_lt(f[i], f[j]) && f[i].path != f[j].path by {
                if j < f.len() - 1 {
                    assert(f[i] == f1[i]);
                    assert(f[j] == f1[j]);
                } else {
                    assert(f[j] == s.last());
                    assert(f[i] == f1[i]);
                    assert(f1.contains(f1[i]));
                    let k = choose|k: int| 0 <= k < s1.len() && s1[k] == f1[i];
                    assert(s[k] == f1[i]);
                    assert(s[s.len() - 1] == s.last());
                }
            }
            assert forall|i: int| 0 <= i < f.len() implies valid_book(#[trigger] f[i]) by {
                assert(f.contains(f[i]));
                let k = choose|k: int| 0 <= k < s.len() && s[k] == f[i];
            }
        }
    }
}

/// Inserting at the position the store finds produces `insert_sorted`.
proof fn lemma_insert_sorted_at(s: Seq<BookView>, b: BookView, k: int)
    requires
        0 <= k <= s.len(),
        forall|j: int| 0 <= j < k ==> key_lt(#[trigger] s[j], b),
        k < s.len() ==> key_lt(b, s[k]),
    ensures
        insert_sorted(s, b) == s.insert(k, b),
    decreases s.len(),
{
    if s.len() == 0 {
        assert(insert_sorted(s, b) =~= s.insert(0, b));
    } else if k == 0 {
        assert(key_lt(b, s[0]));
        assert(seq![b] + s =~= s.insert(0, b));
    } else {
        assert(key_lt(s[0], b));
        if key_lt(b, s[0]) {
            lemma_key_lt_trans(s[0], b, s[0]);
            lemma_key_lt_irrefl(s[0], s[0]);
        }
        let s1 = s.drop_first();
        assert forall|j: int| 0 <= j < k - 1 implies key_lt(#[trigger] s1[j], b) by {
            assert(s1[j] == s[j + 1]);
        }
        assert(k - 1 < s1.len() ==> s1[k - 1] == s[k]);
        lemma_insert_sorted_at(s1, b, k - 1);
        assert(seq![s[0]] + s1.insert(k - 1, b) =~= s.insert(k, b));
    }
}

/// Inserting a fresh, valid record between its neighbours keeps the
/// table invariant.
proof fn lemma_insert_wf(s: Seq<BookView>, b: BookView, k: int)
    requires
        wf_seq(s),
        valid_book(b),
        !has_path(s, b.path),
        0 <= k <= s.len(),
        forall|j: int| 0 <= j < k ==> key_lt(#[trigger] s[j], b),
        forall|j: int| k <= j < s.len() ==> key_lt(b, #[trigger] s[j]),
    ensures
        wf_seq(s.insert(k, b)),
{
    let t = s.insert(k, b);
    assert forall|i: int, j: int| #![trigger t[i], t[j]] 0 <= i < j < t.len() implies key_lt(
        t[i],
        t[j],
    ) && t[i].path != t[j].path by {
        if i < k {
            assert(t[i] == s[i]);
        } else if i == k {
            assert(t[i] == b);
        } else {
            assert(t[i] == s[i - 1]);
        }
        if j < k {
            assert(t[j] == s[j]);
        } else if j == k {
            assert(t[j] == b);
        } else {
            assert(t[j] == s[j - 1]);
        }
    }
    assert forall|i: int| 0 <= i < t.len() implies valid_book(#[trigger] t[i]) by {
        if i < k {
            assert(t[i] == s[i]);
        } else if i == k {
            assert(t[i] == b);
        } else {
            assert(t[i] == s[i - 1]);
        }
    }
}

/// The position at which a fresh key enters the ordered table.
proof fn lemma_insert_position(s: Seq<BookView>, b: BookView) -> (k: int)
    requires
        wf_seq(s),
        !has_key(s, b.category, b.tag),
    ensures
        0 <= k <= s.len(),
        forall|j: int| 0 <= j < k ==> key_lt(#[trigger] s[j], b),
        forall|j: int| k <= j < s.len() ==> key_lt(b, #[trigger] s[j]),
    decreases s.len(),
{
    if s.len() == 0 {
        0
    } else if key_lt(b, s[0]) {
        assert forall|j: int| 0 <= j < s.len() implies key_lt(b, #[trigger] s[j]) by {
            if j > 0 {
                lemma_key_lt_trans(b, s[0], s[j]);
            }
        }
        0
    } else {
        if !key_lt(s[0], b) {
            lemma_key_lt_connex(s[0], b);
            assert(s[0].category == b.category && s[0].tag == b.tag);
            assert(false);
        }
        let s1 = s.drop_first();
        assert(wf_seq(s1)) by {
            assert forall|i: int| 0 <= i < s1.len() implies valid_book(#[trigger] s1[i]) by {
                assert(s1[i] == s[i + 1]);
            }
        }
        assert(!has_key(s1, b.category, b.tag)) by {
            if has_key(s1, b.category, b.tag) {
                let w = choose|w: int|
                    0 <= w < s1.len() && (#[trigger] s1[w]).category == b.category
                        && s1[w].tag == b.tag;
                assert(s[w + 1] == s1[w]);
                assert(false);
            }
        }
        let k1 = lemma_insert_position(s1, b);
        assert forall|j: int| 0 <= j < k1 + 1 implies key_lt(#[trigger] s[j], b) by {
            if j > 0 {
                assert(s[j] == s1[j - 1]);
            }
        }
        assert forall|j: int| k1 + 1 <= j < s.len() implies key_lt(b, #[trigger] s[j]) by {
            assert(s[j] == s1[j - 1]);
        }
        k1 + 1
    }
}

/// `filter` keeps exactly the records that satisfy the predicate.
pub proof fn lemma_filter_membership(s: Seq<BookView>, pred: spec_fn(BookView) -> bool)
    ensures
        forall|x: BookView|
            #[trigger] s.filter(pred).contains(x) <==> (s.contains(x) && pred(x)),
    decreases s.len(),
{
    reveal(Seq::filter);
    if s.len() > 0 {
        let s1 = s.drop_last();
        let f1 = s1.filter(pred);
        let f = s.filter(pred);
        lemma_filter_membership(s1, pred);
        assert forall|x: BookView| #[trigger] f.contains(x) implies (s.contains(x) && pred(x)) by {
            let i = choose|i: int| 0 <= i < f.len() && f[i] == x;
            if pred(s.last()) && i == f.len() - 1 {
                assert(s[s.len() - 1] == x);
            } else {
                assert(f1[i] == x);
                assert(f1.contains(x));
                let k = choose|k: int| 0 <= k < s1.len() && s1[k] == x;
                assert(s[k] == x);
            }
        }
        assert forall|x: BookView| s.contains(x) && pred(x) implies #[trigger] f.contains(x) by {
            let k = choose|k: int| 0 <= k < s.len() && s[k] == x;
            if k == s.len() - 1 {
                assert(f[f.len() - 1] == x);
            } else {
                assert(s1[k] == x);
                assert(s1.contains(x));
                assert(f1.contains(x));
                let j = choose|j: int| 0 <= j < f1.len() && f1[j] == x;
                assert(f[j] == x);
            }
        }
    }
}

/// The bookmark table, kept in `(category, tag)` order.
pub struct BookmarkStore {
    books: Vec<Book>,
}

impl View for BookmarkStore {
    type V = Seq<BookView>;

    closed spec fn view(&self) -> Seq<BookView> {
        views(self.books@)
    }
}

impl BookmarkStore {
    /// The table invariant; constructors establish it and every operation
    /// preserves it.
    pub open spec fn wf(&self) -> bool {
        wf_seq(self@)
    }

    /// An empty store.
    pub fn new() -> (r: BookmarkStore)
        ensures
            r.wf(),
            r@ == Seq::<BookView>::empty(),
    {
        let r = BookmarkStore { books: Vec::new() };
        proof {
            assert(r@ =~= Seq::<BookView>::empty());
        }
        r
    }

    /// `Read`: the record stored under `(category, tag)`, or `NotFound`
    /// when no record matches.  The store is not touched.
    pub fn read(&self, category: &str, tag: &str) -> (r: Result<Book, ShelfError>)
        requires
            self.wf(),
        ensures
            has_key(self@, category@, tag@) ==> (r matches Ok(b) && b@ == book_at(
                self@,
                category@,
                tag@,
            )),
            !has_key(self@, category@, tag@) ==> r == Err::<Book, ShelfError>(
                ShelfError::NotFound,
            ),
    {
        let n = self.books.len();
        let mut i: usize = 0;
        while i < n
            invariant
                i <= n,
                n == self.books.len(),
                self.wf(),
                forall|j: int|
                    0 <= j < i ==> !((#[trigger] self@[j]).category == category@
                        && self@[j].tag == tag@),
            decreases n - i,
        {
            let b = &self.books[i];
            if key_eq_exec(b.category.as_str(), b.tag.as_str(), category, tag) {
                proof {
                    assert(self@[i as int] == b@);
                    let k = key_index(self@, category@, tag@);
                    assert(0 <= k < self@.len() && self@[k].category == category@
                        && self@[k].tag == tag@);
                    if k != i as int {
                        if k < i as int {
                            lemma_key_lt_irrefl(self@[k], self@[i as int]);
                        } else {
                            lemma_key_lt_irrefl(self@[i as int], self@[k]);
                        }
                    }
                }
                return Ok(b.clone());
            }
            i = i + 1;
        }
        Err(ShelfError::NotFound)
    }

    /// `Store`: insert a record whose path is already canonical.  Fails
    /// with `DuplicateKey` when the key pair is taken, else with
    /// `DuplicatePath` when the path is bookmarked under another key;
    /// either failure leaves the table unchanged.  On success the record
    /// enters the table at its ordered position.
    pub fn store(&mut self, book: Book) -> (r: Result<(), ShelfError>)
        requires
            old(self).wf(),
            valid_book(book@),
        ensures
            final(self).wf(),
            has_key(old(self)@, book@.category, book@.tag) ==> (r == Err::<(), ShelfError>(
                ShelfError::DuplicateKey,
            ) && final(self)@ == old(self)@),
            !has_key(old(self)@, book@.category, book@.tag) && has_path(old(self)@, book@.path)
                ==> (r == Err::<(), ShelfError>(ShelfError::DuplicatePath) && final(self)@
                == old(self)@),
            !has_key(old(self)@, book@.category, book@.tag) && !has_path(old(self)@, book@.path)
                ==> (r == Ok::<(), ShelfError>(()) && final(self)@ == insert_sorted(
                old(self)@,
                book@,
            )),
    {
        let ghost s0 = self@;
        let n = self.books.len();
        let mut i: usize = 0;
        while i < n
            invariant
                i <= n,
                n == self.books.len(),
                s0 == self@,
                s0 == old(self)@,
                wf_seq(s0),
                forall|j: int| 0 <= j < i ==> !same_key(#[trigger] s0[j], book@),
            decreases n - i,
        {
            let b = &self.books[i];
            if key_eq_exec(
                b.category.as_str(),
                b.tag.as_str(),
                book.category.as_str(),
                book.tag.as_str(),
            ) {
                proof {
                    assert(s0[i as int] == b@);
                }
                return Err(ShelfError::DuplicateKey);
            }
            i = i + 1;
        }
        proof {
            if has_key(s0, book@.category, book@.tag) {
                let w = choose|w: int|
                    0 <= w < s0.len() && (#[trigger] s0[w]).category == book@.category
                        && s0[w].tag == book@.tag;
                assert(!same_key(s0[w], book@));
                assert(false);
            }
        }
        let mut p: usize = 0;
        while p < n
            invariant
                p <= n,
                n == self.books.len(),
                s0 == self@,
                s0 == old(self)@,
                wf_seq(s0),
                !has_key(s0, book@.category, book@.tag),
                forall|j: int| 0 <= j < p ==> (#[trigger] s0[j]).path != book@.path,
            decreases n - p,
        {
            let b = &self.books[p];
            if str_eq(b.path.as_str(), book.path.as_str()) {
                proof {
                    assert(s0[p as int] == b@);
                }
                return Err(ShelfError::DuplicatePath);
            }
            p = p + 1;
        }
        proof {
            if has_path(s0, book@.path) {
                let w = choose|w: int|
                    0 <= w < s0.len() && (#[trigger] s0[w]).path == book@.path;
                assert(false);
            }
        }
        let mut k: usize = 0;
        while k < n && key_lt_exec(
            self.books[k].category.as_str(),
            self.books[k].tag.as_str(),
            book.category.as_str(),
            book.tag.as_str(),
        )
            invariant
                k <= n,
                n == self.books.len(),
                s0 == self@,
                s0 == old(self)@,
                wf_seq(s0),
                valid_book(book@),
                !has_key(s0, book@.category, book@.tag),
                !has_path(s0, book@.path),
                forall|j: int| 0 <= j < k ==> key_lt(#[trigger] s0[j], book@),
            decreases n - k,
        {
            proof {
                assert(s0[k as int] == self.books@[k as int]@);
            }
            k = k + 1;
        }
        proof {
            assert forall|j: int| k <= j < n implies key_lt(book@, #[trigger] s0[j]) by {
                assert(s0[k as int] == self.books@[k as int]@);
                if !key_lt(book@, s0[k as int]) {
                    lemma_key_lt_connex(s0[k as int], book@);
                    assert(false);
                }
                if j > k {
                    lemma_key_lt_trans(book@, s0[k as int], s0[j]);
                }
            }
            lemma_insert_sorted_at(s0, book@, k as int);
            lemma_insert_wf(s0, book@, k as int);
        }
        self.books.insert(k, book);
        proof {
            assert forall|idx: int| 0 <= idx < views(self.books@).len() implies views(
                self.books@,
            )[idx] == s0.insert(k as int, book@)[idx] by {
                if idx < k {
                    assert(self.books@[idx] == old(self).books@[idx]);
                } else if idx > k {
                    assert(self.books@[idx] == old(self).books@[idx - 1]);
                }
            }
            assert(views(self.books@) =~= s0.insert(k as int, book@));
        }
        Ok(())
    }

    /// `Visit`: every record matching the optional category filter, as
    /// value copies, in `(category, tag)` order — the table's own order.
    pub fn visit(&self, category: Option<&str>) -> (r: Vec<Book>)
        requires
            self.wf(),
        ensures
            views(r@) == selected(self@, opt_view(category)),
    {
        let ghost c = opt_view(category);
        let ghost s0 = self@;
        let mut out: Vec<Book> = Vec::new();
        let n = self.books.len();
        let mut i: usize = 0;
        proof {
            reveal(Seq::filter);
            assert(s0.take(0) =~= Seq::<BookView>::empty());
            assert(views(out@) =~= selected(s0.take(0), c));
        }
        while i < n
            invariant
                i <= n,
                n == self.books.len(),
                s0 == self@,
                c == opt_view(category),
                views(out@) == selected(s0.take(i as int), c),
            decreases n - i,
        {
            let b = &self.books[i];
            let keep = match category {
                Some(cc) => str_eq(b.category.as_str(), cc),
                None => true,
            };
            proof {
                reveal(Seq::filter);
                assert(s0[i as int] == b@);
                assert(cat_match(s0[i as int], c) == keep);
                assert(s0.take(i + 1).drop_last() =~= s0.take(i as int));
                assert(s0.take(i + 1).last() == s0[i as int]);
            }
            if keep {
                out.push(b.clone());
            }
            proof {
                assert(views(out@) =~= selected(s0.take(i + 1), c));
            }
            i = i + 1;
        }
        proof {
            assert(s0.take(n as int) =~= s0);
        }
        out
    }

    /// `Throw`: with a tag, delete exactly the record under
    /// `(category, tag)`; without one, delete every record of the
    /// category.  Keys that match nothing are a silent no-op.
    pub fn throw(&mut self, category: &str, tag: Option<&str>)
        requires
            old(self).wf(),
        ensures
            final(self).wf(),
            final(self)@ == remaining(old(self)@, category@, opt_view(tag)),
    {
        let ghost t = opt_view(tag);
        let ghost s0 = self@;
        let mut keep_books: Vec<Book> = Vec::new();
        let n = self.books.len();
        let mut i: usize = 0;
        proof {
            reveal(Seq::filter);
            assert(s0.take(0) =~= Seq::<BookView>::empty());
            assert(views(keep_books@) =~= remaining(s0.take(0), category@, t));
        }
        while i < n
            invariant
                i <= n,
                n == self.books.len(),
                s0 == self@,
                t == opt_view(tag),
                views(keep_books@) == remaining(s0.take(i as int), category@, t),
            decreases n - i,
        {
            let b = &self.books[i];
            let keep = match tag {
                Some(tt) => !(str_eq(b.category.as_str(), category) && str_eq(
                    b.tag.as_str(),
                    tt,
                )),
                None => !str_eq(b.category.as_str(), category),
            };
            proof {
                reveal(Seq::filter);
                assert(s0[i as int] == b@);
                assert(kept(s0[i as int], category@, t) == keep);
                assert(s0.take(i + 1).drop_last() =~= s0.take(i as int));
                assert(s0.take(i + 1).last() == s0[i as int]);
            }
            if keep {
                keep_books.push(b.clone());
            }
            proof {
                assert(views(keep_books@) =~= remaining(s0.take(i + 1), category@, t));
            }
            i = i + 1;
        }
        self.books = keep_books;
        proof {
            assert(s0.take(n as int) =~= s0);
            lemma_filter_wf(s0, |b: BookView| kept(b, category@, t));
        }
    }
}

/// Storing then reading: after a record enters the table, its key is
/// present and looking the key up yields exactly the stored record, with
/// the table invariant intact.
pub proof fn lemma_store_then_read(s: Seq<BookView>, b: BookView)
    requires
        wf_seq(s),
        valid_book(b),
        !has_key(s, b.category, b.tag),
        !has_path(s, b.path),
    ensures
        wf_seq(insert_sorted(s, b)),
        has_key(insert_sorted(s, b), b.category, b.tag),
        book_at(insert_sorted(s, b), b.category, b.tag) == b,
{
    let k = lemma_insert_position(s, b);
    lemma_insert_sorted_at(s, b, k);
    lemma_insert_wf(s, b, k);
    let t = s.insert(k, b);
    assert(t[k] == b);
    assert(has_key(t, b.category, b.tag));
    let k2 = key_index(t, b.category, b.tag);
    assert(0 <= k2 < t.len() && t[k2].category == b.category && t[k2].tag == b.tag);
    if k2 != k {
        if k2 < k {
            lemma_key_lt_irrefl(t[k2], t[k]);
        } else {
            lemma_key_lt_irrefl(t[k], t[k2]);
        }
    }
}

/// Storing the same key twice: after the first record enters the table,
/// any record carrying the same key finds the key taken — so a second
/// `Store` of it fails with `DuplicateKey` and, by `store`'s contract,
/// leaves the table as the first insert left it.
pub proof fn lemma_store_twice_duplicate_key(s: Seq<BookView>, b: BookView, b2: BookView)
    requires
        wf_seq(s),
        valid_book(b),
        !has_key(s, b.category, b.tag),
        !has_path(s, b.path),
        same_key(b2, b),
    ensures
        has_key(insert_sorted(s, b), b2.category, b2.tag),
{
    lemma_store_then_read(s, b);
}

/// Storing the same canonical path under a second, different key: the
/// new key is still free but the path is taken — so a second `Store`
/// fails with `DuplicatePath` by `store`'s contract.
pub proof fn lemma_store_twice_duplicate_path(s: Seq<BookView>, b: BookView, b2: BookView)
    requires
        wf_seq(s),
        valid_book(b),
        !has_key(s, b.category, b.tag),
        !has_path(s, b.path),
        b2.path == b.path,
        !same_key(b2, b),
        !has_key(s, b2.category, b2.tag),
    ensures
        !has_key(insert_sorted(s, b), b2.category, b2.tag),
        has_path(insert_sorted(s, b), b2.path),
{
    let k = lemma_insert_position(s, b);
    lemma_insert_sorted_at(s, b, k);
    let t = s.insert(k, b);
    assert(t[k] == b);
    assert(has_path(t, b2.path));
    if has_key(t, b2.category, b2.tag) {
        let w = choose|w: int|
            0 <= w < t.len() && (#[trigger] t[w]).category == b2.category && t[w].tag
                == b2.tag;
        if w < k {
            assert(t[w] == s[w]);
        } else if w > k {
            assert(t[w] == s[w - 1]);
        }
        assert(false);
    }
}

/// `Visit` without a filter returns the whole table: every record, in
/// the table's `(category, tag)` order.
pub proof fn lemma_visit_all(s: Seq<BookView>)
    ensures
        selected(s, None) == s,
    decreases s.len(),
{
    reveal(Seq::filter);
    if s.len() > 0 {
        lemma_visit_all(s.drop_last());
        assert(selected(s, None) =~= s);
    } else {
        assert(selected(s, None) =~= s);
    }
}

/// `Visit` with a category returns exactly the records of that category,
/// every one of them, still in table order — within one category that is
/// tag order.
pub proof fn lemma_visit_category(s: Seq<BookView>, c: Seq<char>)
    requires
        wf_seq(s),
    ensures
        wf_seq(selected(s, Some(c))),
        forall|i: int|
            0 <= i < selected(s, Some(c)).len() ==> (#[trigger] selected(s, Some(c))[i]).category
                == c,
        forall|x: BookView|
            #[trigger] selected(s, Some(c)).contains(x) <==> (s.contains(x) && x.category == c),
{
    let pred = |b: BookView| cat_match(b, Some(c));
    lemma_filter_wf(s, pred);
    lemma_filter_membership(s, pred);
    assert forall|i: int| 0 <= i < selected(s, Some(c)).len() implies (#[trigger] selected(
        s,
        Some(c),
    )[i]).category == c by {
        Seq::lemma_filter_pred(s, pred, i);
    }
}

/// `Throw` with a tag removes exactly the record under `(c, t)`: the key
/// is gone afterwards — a `Read` of it fails with `NotFound` by `read`'s
/// contract — and every other record, under the category `c` or any
/// other, survives.
pub proof fn lemma_throw_tag(s: Seq<BookView>, c: Seq<char>, t: Seq<char>)
    requires
        wf_seq(s),
    ensures
        wf_seq(remaining(s, c, Some(t))),
        !has_key(remaining(s, c, Some(t)), c, t),
        forall|x: BookView|
            #[trigger] remaining(s, c, Some(t)).contains(x) <==> (s.contains(x) && !(x.category
                == c && x.tag == t)),
{
    let pred = |b: BookView| kept(b, c, Some(t));
    lemma_filter_wf(s, pred);
    lemma_filter_membership(s, pred);
    let rem = remaining(s, c, Some(t));
    if has_key(rem, c, t) {
        let w = choose|w: int|
            0 <= w < rem.len() && (#[trigger] rem[w]).category == c && rem[w].tag == t;
        Seq::lemma_filter_pred(s, pred, w);
        assert(false);
    }
}

/// `Throw` without a tag empties the category and touches nothing else:
/// no record of category `c` remains, and every record of any other
/// category survives.
pub proof fn lemma_throw_category(s: Seq<BookView>, c: Seq<char>)
    requires
        wf_seq(s),
    ensures
        wf_seq(remaining(s, c, None)),
        forall|i: int|
            0 <= i < remaining(s, c, None).len() ==> (#[trigger] remaining(s, c, None)[i]).category
                != c,
        forall|x: BookView|
            #[trigger] remaining(s, c, None).contains(x) <==> (s.contains(x) && x.category != c),
{
    let pred = |b: BookView| kept(b, c, None);
    lemma_filter_wf(s, pred);
    lemma_filter_membership(s, pred);
    assert forall|i: int| 0 <= i < remaining(s, c, None).len() implies (#[trigger] remaining(
        s,
        c,
        None,
    )[i]).category != c by {
        Seq::lemma_filter_pred(s, pred, i);
    }
}

/// Store a new bookmark from its parts; `path` must already be in
/// canonical absolute form — the shell resolves it before calling.
/// Returns the persisted record on success.
pub fn store(config: &mut BookmarkStore, category: &str, tag: &str, path: &str) -> (r: Result<
    Book,
    ShelfError,
>)
    requires
        old(config).wf(),
        category@.len() > 0,
        tag@.len() > 0,
    ensures
        final(config).wf(),
        has_key(old(config)@, category@, tag@) ==> (r == Err::<Book, ShelfError>(
            ShelfError::DuplicateKey,
        ) && final(config)@ == old(config)@),
        !has_key(old(config)@, category@, tag@) && has_path(old(config)@, path@) ==> (r
            == Err::<Book, ShelfError>(ShelfError::DuplicatePath)
            && final(config)@ == old(config)@),
        !has_key(old(config)@, category@, tag@) && !has_path(old(config)@, path@) ==> (r matches
            Ok(b) && b@ == (BookView { category: category@, tag: tag@, path: path@ })
            && final(config)@ == insert_sorted(
            old(config)@,
            BookView { category: category@, tag: tag@, path: path@ },
        )),
{
    let book = Book::new(category.to_owned(), tag.to_owned(), path.to_owned());
    let copy = book.clone();
    match config.store(book) {
        Ok(()) => Ok(copy),
        Err(e) => Err(e),
    }
}

/// List bookmarks, optionally one category only; see
/// [`BookmarkStore::visit`].
pub fn visit(config: &BookmarkStore, category: Option<&str>) -> (r: Vec<Book>)
    requires
        config.wf(),
    ensures
        views(r@) == selected(config@, opt_view(category)),
{
    config.visit(category)
}

/// Delete one bookmark or a whole category; see [`BookmarkStore::throw`].
pub fn throw(config: &mut BookmarkStore, category: &str, tag: Option<&str>)
    requires
        old(config).wf(),
    ensures
        final(config).wf(),
        final(config)@ == remaining(old(config)@, category@, opt_view(tag)),
{
    config.throw(category, tag)
}

/// Look one bookmark up; see [`BookmarkStore::read`].
pub fn read(config: &BookmarkStore, category: &str, tag: &str) -> (r: Result<Book, ShelfError>)
    requires
        config.wf(),
    ensures
        has_key(config@, category@, tag@) ==> (r matches Ok(b) && b@ == book_at(
            config@,
            category@,
            tag@,
        )),
        !has_key(config@, category@, tag@) ==> r == Err::<Book, ShelfError>(ShelfError::NotFound),
{
    config.read(category, tag)
}

} // verus!
