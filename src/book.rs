use vstd::prelude::*;

verus! {

/// The identifier of a book: the decimal notation of a positive integer.
pub type BookId = String;

/// Where a reader stands with a book.
#[derive(Clone, Copy, Debug, PartialEq, Eq, Structural)]
pub enum Status {
    List,
    Read,
    Finished,
}

/// A book record. `book_id` and `account_id` are empty until the ledger
/// stores the record.
pub struct Book {
    pub book_id: Option<BookId>,
    pub account_id: Option<String>,
    pub title: String,
    pub description: String,
    pub status: Status,
    pub image: String,
}

/// A book record with its strings as sequences of characters.
pub struct BookView {
    pub book_id: Option<Seq<char>>,
    pub account_id: Option<Seq<char>>,
    pub title: Seq<char>,
    pub description: Seq<char>,
    pub status: Status,
    pub image: Seq<char>,
}

pub open spec fn opt_string_view(o: Option<String>) -> Option<Seq<char>> {
    match o {
        Some(s) => Some(s@),
        None => None,
    }
}

impl View for Book {
    type V = BookView;

    open spec fn view(&self) -> BookView {
        BookView {
            book_id: opt_string_view(self.book_id),
            account_id: opt_string_view(self.account_id),
            title: self.title@,
            description: self.description@,
            status: self.status,
            image: self.image@,
        }
    }
}

fn clone_opt_string(o: &Option<String>) -> (r: Option<String>)
    ensures
        opt_string_view(r) == opt_string_view(*o),
{
    match o {
        Some(s) => Some(s.clone()),
        None => None,
    }
}

impl Clone for Book {
    fn clone(&self) -> (r: Book)
        ensures
            r@ == self@,
    {
        Book {
            book_id: clone_opt_string(&self.book_id),
            account_id: clone_opt_string(&self.account_id),
            title: self.title.clone(),
            description: self.description.clone(),
            status: self.status,
            image: self.image.clone(),
        }
    }
}

} // verus!
