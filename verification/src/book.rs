//! The bookmark record and the order on its keys.

use vstd::prelude::*;
use crate::order::lex_lt;
use crate::order::lemma_lex_connex;
use crate::order::lemma_lex_irrefl;
use crate::order::lemma_lex_trans;
use crate::order::str_eq;
use crate::order::str_lt;

verus! {

/// One persisted bookmark: a `(category, tag)` key and the canonical
/// absolute path it names, all stored as text.
#[derive(Debug)]
pub struct Book {
    pub category: String,
    pub tag: String,
    pub path: String,
}

/// Mathematical image of a [`Book`]: its three fields as character sequences.
pub struct BookView {
    pub category: Seq<char>,
    pub tag: Seq<char>,
    pub path: Seq<char>,
}

impl View for Book {
    type V = BookView;

    open spec fn view(&self) -> BookView {
        BookView { category: self.category@, tag: self.tag@, path: self.path@ }
    }
}

impl Book {
    /// Assemble a record from its parts.
    pub fn new(category: String, tag: String, path: String) -> (r: Book)
        ensures
            r@ == (BookView { category: category@, tag: tag@, path: path@ }),
    {
        Book { category, tag, path }
    }
}

impl Clone for Book {
    /// Cloning copies all three fields.
    fn clone(&self) -> (r: Self)
        ensures
            r@ == self@,
    {
        Book {
            category: self.category.clone(),
            tag: self.tag.clone(),
            path: self.path.clone(),
        }
    }
}

/// A record the store may hold: category and tag are non-empty.
pub open spec fn valid_book(b: BookView) -> bool {
    b.category.len() > 0 && b.tag.len() > 0
}

/// Strict order on keys given as parts: lexicographic on the category,
/// then on the tag.
pub open spec fn key_lt_parts(c1: Seq<char>, t1: Seq<char>, c2: Seq<char>, t2: Seq<char>) -> bool {
    lex_lt(c1, c2) || (c1 == c2 && lex_lt(t1, t2))
}

/// Strict order on records by `(category, tag)`.
pub open spec fn key_lt(a: BookView, b: BookView) -> bool {
    key_lt_parts(a.category, a.tag, b.category, b.tag)
}

/// Do two records carry the same key?
pub open spec fn same_key(a: BookView, b: BookView) -> bool {
    a.category == b.category && a.tag == b.tag
}

/// Records with equal keys are unordered.
pub proof fn lemma_key_lt_irrefl(a: BookView, b: BookView)
    requires
        same_key(a, b),
    ensures
        !key_lt(a, b),
{
    lemma_lex_irrefl(a.category);
    lemma_lex_irrefl(a.tag);
}

/// Records with incomparable keys have equal keys.
pub proof fn lemma_key_lt_connex(a: BookView, b: BookView)
    requires
        !key_lt(a, b),
        !key_lt(b, a),
    ensures
        same_key(a, b),
{
    lemma_lex_connex(a.category, b.category);
    lemma_lex_connex(a.tag, b.tag);
}

/// The key order is transitive.
pub proof fn lemma_key_lt_trans(a: BookView, b: BookView, c: BookView)
    requires
        key_lt(a, b),
        key_lt(b, c),
    ensures
        key_lt(a, c),
{
    if lex_lt(a.category, b.category) && lex_lt(b.category, c.category) {
        lemma_lex_trans(a.category, b.category, c.category);
    } else if a.category == b.category && b.category == c.category {
        lemma_lex_trans(a.tag, b.tag, c.tag);
    }
}

/// Executable key comparison, proved against [`key_lt_parts`].
pub fn key_lt_exec(c1: &str, t1: &str, c2: &str, t2: &str) -> (r: bool)
    ensures
        r == key_lt_parts(c1@, t1@, c2@, t2@),
{
    if str_lt(c1, c2) {
        true
    } else if str_eq(c1, c2) {
        str_lt(t1, t2)
    } else {
        false
    }
}

/// Executable key equality.
pub fn key_eq_exec(c1: &str, t1: &str, c2: &str, t2: &str) -> (r: bool)
    ensures
        r == (c1@ == c2@ && t1@ == t2@),
{
    str_eq(c1, c2) && str_eq(t1, t2)
}

} // verus!
