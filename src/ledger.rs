use vstd::prelude::*;

use crate::book::{Book, BookId, BookView, Status};
use crate::decimal::{decimal, decimal_string, lemma_decimal_injective};

verus! {

/// Why a ledger operation failed.
#[derive(Clone, Copy, Debug, PartialEq, Eq, Structural)]
pub enum LedgerError {
    /// A page limit of zero was asked for.
    InvalidArgument,
    /// No record with that identifier, or none that the caller owns.
    NotFound,
    /// The owner index names a record that the store does not hold.
    ConsistencyError,
}

/// The record whose identifier is `id`, if the store holds one.
pub open spec fn record_with_id(store: Seq<BookView>, id: Seq<char>) -> Option<BookView> {
    if exists|i: int| 0 <= i < store.len() && store[i].book_id == Some(id) {
        Some(store[choose|i: int| 0 <= i < store.len() && store[i].book_id == Some(id)])
    } else {
        None
    }
}

/// The identifiers of the records that `owner` holds.
pub open spec fn ids_owned_by(store: Seq<BookView>, owner: Seq<char>) -> Set<Seq<char>> {
    Set::new(
        |id: Seq<char>|
            exists|i: int|
                0 <= i < store.len() && store[i].book_id == Some(id) && store[i].account_id == Some(
                    owner,
                ),
    )
}

/// No two records of the store share an identifier.
pub open spec fn ids_unique(store: Seq<BookView>) -> bool {
    forall|i: int, j: int|
        0 <= i < store.len() && 0 <= j < store.len() && i != j ==> store[i].book_id
            != store[j].book_id
}

/// A record as the ledger stores it: with its identifier and owner set.
pub open spec fn stamped(book: BookView, id: Seq<char>, owner: Seq<char>) -> BookView {
    BookView { book_id: Some(id), account_id: Some(owner), ..book }
}

/// A record with its status replaced.
pub open spec fn with_status(book: BookView, status: Status) -> BookView {
    BookView { status, ..book }
}

/// The store with the status of the record `id` replaced.
pub open spec fn set_status(store: Seq<BookView>, id: Seq<char>, status: Status) -> Seq<BookView> {
    store.map_values(
        |b: BookView|
            if b.book_id == Some(id) {
                with_status(b, status)
            } else {
                b
            },
    )
}

/// Where a page of a sequence of `len` items starts when `skip` are skipped.
pub open spec fn page_start(len: nat, skip: nat) -> nat {
    if skip < len {
        skip
    } else {
        len
    }
}

/// Where that page ends when it holds at most `limit` items.
pub open spec fn page_end(len: nat, skip: nat, limit: nat) -> nat {
    if page_start(len, skip) + limit < len {
        page_start(len, skip) + limit
    } else {
        len
    }
}

/// The part of `s` that skips `skip` items and holds at most `limit`.
pub open spec fn page<A>(s: Seq<A>, skip: nat, limit: nat) -> Seq<A> {
    s.subrange(page_start(s.len(), skip) as int, page_end(s.len(), skip, limit) as int)
}

/// The page size that an optional limit stands for: no limit is the largest.
pub open spec fn limit_value(limit: Option<u64>) -> nat {
    match limit {
        Some(v) => v as nat,
        None => u64::MAX as nat,
    }
}

/// The identifiers of the books that one account owns.
struct OwnerBooks {
    owner: String,
    book_ids: Vec<String>,
}

impl OwnerBooks {
    spec fn ids(&self) -> Seq<Seq<char>> {
        self.book_ids@.map_values(|s: String| s@)
    }
}

spec fn owners_distinct(es: Seq<OwnerBooks>) -> bool {
    forall|e: int, f: int|
        0 <= e < es.len() && 0 <= f < es.len() && e != f ==> es[e].owner@ != es[f].owner@
}

spec fn entry_ids(es: Seq<OwnerBooks>, owner: Seq<char>) -> Seq<Seq<char>> {
    if exists|e: int| 0 <= e < es.len() && es[e].owner@ == owner {
        es[choose|e: int| 0 <= e < es.len() && es[e].owner@ == owner].ids()
    } else {
        Seq::empty()
    }
}

proof fn lemma_entry_ids_at(es: Seq<OwnerBooks>, e: int, owner: Seq<char>)
    requires
        owners_distinct(es),
        0 <= e < es.len(),
        es[e].owner@ == owner,
    ensures
        entry_ids(es, owner) == es[e].ids(),
{
}

proof fn lemma_entry_ids_absent(es: Seq<OwnerBooks>, owner: Seq<char>)
    requires
        forall|e: int| 0 <= e < es.len() ==> es[e].owner@ != owner,
    ensures
        entry_ids(es, owner) == Seq::<Seq<char>>::empty(),
{
}

proof fn lemma_entry_ids_frame(es: Seq<OwnerBooks>, es2: Seq<OwnerBooks>, owner: Seq<char>)
    requires
        owners_distinct(es),
        owners_distinct(es2),
        forall|f: int|
            0 <= f < es.len() && es[f].owner@ == owner ==> f < es2.len() && es2[f] == es[f],
        forall|f: int|
            0 <= f < es2.len() && es2[f].owner@ == owner ==> f < es.len() && es2[f] == es[f],
    ensures
        entry_ids(es2, owner) == entry_ids(es, owner),
{
    if exists|f: int| 0 <= f < es.len() && es[f].owner@ == owner {
        let f = choose|f: int| 0 <= f < es.len() && es[f].owner@ == owner;
        lemma_entry_ids_at(es, f, owner);
        lemma_entry_ids_at(es2, f, owner);
    } else {
        lemma_entry_ids_absent(es, owner);
        assert forall|f: int| 0 <= f < es2.len() implies es2[f].owner@ != owner by {
            if es2[f].owner@ == owner {
                assert(es[f].owner@ == owner);
            }
        }
        lemma_entry_ids_absent(es2, owner);
    }
}

proof fn lemma_record_at(store: Seq<BookView>, i: int)
    requires
        ids_unique(store),
        0 <= i < store.len(),
        store[i].book_id is Some,
    ensures
        record_with_id(store, store[i].book_id->Some_0) == Some(store[i]),
{
}

/// The bounds of a page of a sequence of `len` items.
fn page_bounds(len: usize, skip: u64, limit: u64) -> (r: (usize, usize))
    ensures
        r.0 == page_start(len as nat, skip as nat),
        r.1 == page_end(len as nat, skip as nat, limit as nat),
        r.0 <= r.1 <= len,
{
    let total = len as u64;
    let start: u64 = if skip < total {
        skip
    } else {
        total
    };
    let avail: u64 = total - start;
    let take: u64 = if limit < avail {
        limit
    } else {
        avail
    };
    ((start as usize), ((start + take) as usize))
}

/// A book ledger: a store of records and an index from each owner to the
/// identifiers of its records.
pub struct Contract {
    /// One entry per owner that ever added a record.
    books_by_owner_id: Vec<OwnerBooks>,
    /// The records, oldest first.
    books: Vec<Book>,
    /// How many records were ever added; never decreases.
    books_len: u64,
    /// For each record, the number whose decimal notation is its identifier.
    keys: Ghost<Seq<nat>>,
}

impl Contract {
    /// The records, in the order in which listing walks them.
    pub closed spec fn store(&self) -> Seq<BookView> {
        self.books@.map_values(|b: Book| b@)
    }

    /// The identifiers that the index holds for `owner`, in listing order.
    pub closed spec fn owner_index(&self, owner: Seq<char>) -> Seq<Seq<char>> {
        entry_ids(self.books_by_owner_id@, owner)
    }

    /// How many records were ever added.
    pub closed spec fn books_created(&self) -> nat {
        self.books_len as nat
    }

    /// The ledger's invariant: each record carries the decimal notation of a
    /// number from 1 to `books_created` as its identifier, and an owner that is
    /// not empty; identifiers are unique; and the index holds, for each owner,
    /// the identifiers of exactly that owner's records, each once.
    pub closed spec fn wf(&self) -> bool {
        let store = self.store();
        let keys = self.keys@;
        &&& keys.len() == store.len()
        &&& forall|i: int|
            0 <= i < store.len() ==> store[i].book_id == Some(decimal(#[trigger] keys[i])) && 1
                <= keys[i] <= self.books_len
        &&& forall|i: int|
            0 <= i < store.len() ==> (#[trigger] store[i]).account_id is Some
                && store[i].account_id->Some_0.len() > 0
        &&& ids_unique(store)
        &&& owners_distinct(self.books_by_owner_id@)
        &&& forall|owner: Seq<char>|
            (#[trigger] self.owner_index(owner)).no_duplicates() && self.owner_index(owner).to_set()
                == ids_owned_by(store, owner)
    }
}


/// The position of `id` in `ids`, if it is there.
fn position_of(ids: &Vec<String>, id: &String) -> (r: Option<usize>)
    ensures
        match r {
            Some(j) => j < ids@.len() && ids@[j as int]@ == id@,
            None => forall|j: int| 0 <= j < ids@.len() ==> ids@[j]@ != id@,
        },
{
    let mut j: usize = 0;
    while j < ids.len()
        invariant
            j <= ids@.len(),
            forall|k: int| 0 <= k < j ==> ids@[k]@ != id@,
        decreases ids@.len() - j,
    {
        if ids[j] == *id {
            return Some(j);
        }
        j = j + 1;
    }
    None
}

impl Contract {
    /// The position in `books_by_owner_id` of the entry of `owner`.
    fn find_owner(&self, owner: &String) -> (r: Option<usize>)
        ensures
            match r {
                Some(e) => e < self.books_by_owner_id@.len() && self.books_by_owner_id@[e as int].owner@
                    == owner@,
                None => forall|e: int|
                    0 <= e < self.books_by_owner_id@.len() ==> self.books_by_owner_id@[e].owner@
                        != owner@,
            },
    {
        let mut e: usize = 0;
        while e < self.books_by_owner_id.len()
            invariant
                e <= self.books_by_owner_id@.len(),
                forall|f: int| 0 <= f < e ==> self.books_by_owner_id@[f].owner@ != owner@,
            decreases self.books_by_owner_id@.len() - e,
        {
            if self.books_by_owner_id[e].owner == *owner {
                return Some(e);
            }
            e = e + 1;
        }
        None
    }

    /// The position in the store of the record `id`.
    fn find_book(&self, id: &String) -> (r: Option<usize>)
        ensures
            match r {
                Some(i) => i < self.store().len() && self.store()[i as int].book_id == Some(id@),
                None => forall|i: int|
                    0 <= i < self.store().len() ==> self.store()[i].book_id != Some(id@),
            },
    {
        let mut i: usize = 0;
        while i < self.books.len()
            invariant
                i <= self.books@.len(),
                forall|k: int| 0 <= k < i ==> self.store()[k].book_id != Some(id@),
            decreases self.books@.len() - i,
        {
            let found = match &self.books[i].book_id {
                Some(b) => *b == *id,
                None => false,
            };
            if found {
                return Some(i);
            }
            i = i + 1;
        }
        None
    }
}

impl Contract {
    /// Stores `book` as a new record of `caller` under the next identifier,
    /// and returns that identifier.
    pub fn add_book(&mut self, caller: String, mut book: Book) -> (id: BookId)
        requires
            old(self).wf(),
            old(self).books_created() < u64::MAX,
            caller@.len() > 0,
        ensures
            final(self).wf(),
            id@ == decimal(old(self).books_created() + 1),
            record_with_id(old(self).store(), id@) is None,
            final(self).books_created() == old(self).books_created() + 1,
            final(self).store() == old(self).store().push(stamped(book@, id@, caller@)),
            final(self).owner_index(caller@) == old(self).owner_index(caller@).push(id@),
            forall|owner: Seq<char>|
                owner != caller@ ==> #[trigger] final(self).owner_index(owner) == old(
                    self,
                ).owner_index(owner),
    {
        let ghost old_store = self.store();
        let ghost old_es = self.books_by_owner_id@;
        let ghost old_self = *self;
        let current_book_id = decimal_string(self.books_len + 1);
        let ghost new_id = current_book_id@;
        proof {
            assert forall|i: int| 0 <= i < old_store.len() implies old_store[i].book_id != Some(
                new_id,
            ) by {
                if old_store[i].book_id == Some(new_id) {
                    lemma_decimal_injective(self.keys@[i], self.books_len as nat + 1);
                }
            }
        }
        book.book_id = Some(current_book_id.clone());
        book.account_id = Some(caller.clone());
        let ghost new_book = book@;
        self.books.push(book);
        self.keys = Ghost(self.keys@.push(self.books_len as nat + 1));
        match self.find_owner(&caller) {
            Some(e) => {
                self.books_by_owner_id[e].book_ids.push(current_book_id.clone());
            },
            None => {
                let mut ids: Vec<String> = Vec::new();
                ids.push(current_book_id.clone());
                self.books_by_owner_id.push(OwnerBooks { owner: caller, book_ids: ids });
            },
        }
        self.books_len = self.books_len + 1;
        proof {
            let store = self.store();
            let es = self.books_by_owner_id@;
            assert(store =~= old_store.push(new_book));
            assert(owners_distinct(es));
            assert forall|owner: Seq<char>| owner != caller@ implies #[trigger] entry_ids(es, owner)
                == entry_ids(old_es, owner) by {
                lemma_entry_ids_frame(old_es, es, owner);
            }
            if exists|e: int| 0 <= e < old_es.len() && old_es[e].owner@ == caller@ {
                let e = choose|e: int| 0 <= e < old_es.len() && old_es[e].owner@ == caller@;
                lemma_entry_ids_at(old_es, e, caller@);
                lemma_entry_ids_at(es, e, caller@);
                assert(es[e].ids() =~= old_es[e].ids().push(new_id));
            } else {
                lemma_entry_ids_absent(old_es, caller@);
                lemma_entry_ids_at(es, old_es.len() as int, caller@);
                assert(es[old_es.len() as int].ids() =~= seq![new_id]);
                assert(entry_ids(old_es, caller@).push(new_id) =~= seq![new_id]);
            }
            assert forall|owner: Seq<char>|
                (#[trigger] self.owner_index(owner)).no_duplicates() && self.owner_index(
                    owner,
                ).to_set() == ids_owned_by(store, owner) by {
                assert(old_self.owner_index(owner).no_duplicates());
                assert(old_self.owner_index(owner).to_set() == ids_owned_by(old_store, owner));
                if owner == caller@ {
                    assert(!old_self.owner_index(owner).to_set().contains(new_id));
                    assert(self.owner_index(owner).to_set() =~= ids_owned_by(store, owner)) by {
                        assert forall|x: Seq<char>| ids_owned_by(store, owner).contains(x)
                            implies self.owner_index(owner).to_set().contains(x) by {
                            let i = choose|i: int|
                                0 <= i < store.len() && store[i].book_id == Some(x)
                                    && store[i].account_id == Some(owner);
                            if i < old_store.len() {
                                assert(ids_owned_by(old_store, owner).contains(x));
                                assert(old_self.owner_index(owner).contains(x));
                                let j = choose|j: int| 0 <= j < old_self.owner_index(owner).len()
                                    && old_self.owner_index(owner)[j] == x;
                                assert(self.owner_index(owner)[j] == x);
                            } else {
                                assert(self.owner_index(owner).last() == x);
                            }
                        }
                        assert forall|x: Seq<char>| self.owner_index(owner).to_set().contains(x)
                            implies ids_owned_by(store, owner).contains(x) by {
                            let j = choose|j: int| 0 <= j < self.owner_index(owner).len()
                                && self.owner_index(owner)[j] == x;
                            if j < old_self.owner_index(owner).len() {
                                assert(old_self.owner_index(owner).to_set().contains(x));
                                assert(ids_owned_by(old_store, owner).contains(x));
                                let i = choose|i: int|
                                    0 <= i < old_store.len() && old_store[i].book_id == Some(x)
                                        && old_store[i].account_id == Some(owner);
                                assert(store[i] == old_store[i]);
                            } else {
                                assert(store[old_store.len() as int].book_id == Some(x));
                            }
                        }
                    }
                } else {
                    assert(ids_owned_by(store, owner) =~= ids_owned_by(old_store, owner)) by {
                        assert forall|x: Seq<char>| ids_owned_by(store, owner).contains(x)
                            implies ids_owned_by(old_store, owner).contains(x) by {
                            let i = choose|i: int|
                                0 <= i < store.len() && store[i].book_id == Some(x)
                                    && store[i].account_id == Some(owner);
                            assert(i < old_store.len());
                            assert(store[i] == old_store[i]);
                        }
                        assert forall|x: Seq<char>| ids_owned_by(old_store, owner).contains(x)
                            implies ids_owned_by(store, owner).contains(x) by {
                            let i = choose|i: int|
                                0 <= i < old_store.len() && old_store[i].book_id == Some(x)
                                    && old_store[i].account_id == Some(owner);
                            assert(store[i] == old_store[i]);
                        }
                    }
                }
            }
        }
        current_book_id
    }
}

impl Contract {
    /// Sets the status of the record `book_id`, if `caller` owns it, and
    /// returns the record as it now stands.
    pub fn update_book(&mut self, caller: String, book_id: BookId, status: Status) -> (r: Result<
        Book,
        LedgerError,
    >)
        requires
            old(self).wf(),
        ensures
            final(self).wf(),
            r is Ok <==> old(self).owner_index(caller@).contains(book_id@),
            r is Err ==> r == Err::<Book, LedgerError>(LedgerError::NotFound) && *final(self)
                == *old(self),
            r is Ok ==> {
                &&& final(self).store() == set_status(old(self).store(), book_id@, status)
                &&& record_with_id(old(self).store(), book_id@) is Some
                &&& r->Ok_0@ == with_status(
                    record_with_id(old(self).store(), book_id@)->Some_0,
                    status,
                )
                &&& final(self).books_created() == old(self).books_created()
                &&& forall|owner: Seq<char>| #[trigger]
                    final(self).owner_index(owner) == old(self).owner_index(owner)
            },
    {
        let ghost old_self = *self;
        let ghost old_store = self.store();
        let e = match self.find_owner(&caller) {
            Some(e) => e,
            None => {
                proof {
                    lemma_entry_ids_absent(self.books_by_owner_id@, caller@);
                }
                return Err(LedgerError::NotFound);
            },
        };
        proof {
            lemma_entry_ids_at(self.books_by_owner_id@, e as int, caller@);
        }
        let j = match position_of(&self.books_by_owner_id[e].book_ids, &book_id) {
            Some(j) => j,
            None => {
                proof {
                    if self.owner_index(caller@).contains(book_id@) {
                        let k = choose|k: int|
                            0 <= k < self.owner_index(caller@).len() && self.owner_index(
                                caller@,
                            )[k] == book_id@;
                        assert(self.books_by_owner_id@[e as int].book_ids@[k]@ == book_id@);
                    }
                }
                return Err(LedgerError::NotFound);
            },
        };
        proof {
            assert(self.owner_index(caller@)[j as int] == book_id@);
            assert(self.owner_index(caller@).to_set().contains(book_id@));
            assert(ids_owned_by(old_store, caller@).contains(book_id@));
        }
        let i = match self.find_book(&book_id) {
            Some(i) => i,
            None => {
                return Err(LedgerError::NotFound);
            },
        };
        proof {
            lemma_record_at(old_store, i as int);
        }
        self.books[i].status = status;
        proof {
            let store = self.store();
            assert(store =~= old_store.update(i as int, with_status(old_store[i as int], status)));
            assert(store =~= set_status(old_store, book_id@, status));
            assert forall|owner: Seq<char>|
                ids_owned_by(store, owner) =~= ids_owned_by(old_store, owner) by {
                assert forall|x: Seq<char>| ids_owned_by(store, owner).contains(x)
                    implies ids_owned_by(old_store, owner).contains(x) by {
                    let k = choose|k: int|
                        0 <= k < store.len() && store[k].book_id == Some(x)
                            && store[k].account_id == Some(owner);
                    assert(old_store[k].book_id == Some(x));
                }
                assert forall|x: Seq<char>| ids_owned_by(old_store, owner).contains(x)
                    implies ids_owned_by(store, owner).contains(x) by {
                    let k = choose|k: int|
                        0 <= k < old_store.len() && old_store[k].book_id == Some(x)
                            && old_store[k].account_id == Some(owner);
                    assert(store[k].book_id == Some(x));
                }
            }
            assert forall|owner: Seq<char>| #[trigger]
                self.owner_index(owner) == old_self.owner_index(owner) by {
                lemma_entry_ids_frame(old_self.books_by_owner_id@, self.books_by_owner_id@, owner);
            }
        }
        Ok(self.books[i].clone())
    }

    /// Removes the record `book_id`, if `caller` owns it, from the store and
    /// from the index, and returns it.
    pub fn delete_book(&mut self, caller: String, book_id: BookId) -> (r: Result<
        Book,
        LedgerError,
    >)
        requires
            old(self).wf(),
        ensures
            final(self).wf(),
            r is Ok <==> old(self).owner_index(caller@).contains(book_id@),
            r is Err ==> r == Err::<Book, LedgerError>(LedgerError::NotFound) && *final(self)
                == *old(self),
            r is Ok ==> {
                &&& Some(r->Ok_0@) == record_with_id(old(self).store(), book_id@)
                &&& exists|i: int|
                    0 <= i < old(self).store().len() && old(self).store()[i].book_id == Some(
                        book_id@,
                    ) && final(self).store() == old(self).store().remove(i)
                &&& exists|j: int|
                    0 <= j < old(self).owner_index(caller@).len() && old(self).owner_index(
                        caller@,
                    )[j] == book_id@ && final(self).owner_index(caller@) == old(
                        self,
                    ).owner_index(caller@).remove(j)
                &&& forall|owner: Seq<char>|
                    owner != caller@ ==> #[trigger] final(self).owner_index(owner) == old(
                        self,
                    ).owner_index(owner)
                &&& final(self).books_created() == old(self).books_created()
                &&& record_with_id(final(self).store(), book_id@) is None
                &&& !final(self).owner_index(caller@).contains(book_id@)
            },
    {
        let ghost old_self = *self;
        let ghost old_store = self.store();
        let ghost old_es = self.books_by_owner_id@;
        let e = match self.find_owner(&caller) {
            Some(e) => e,
            None => {
                proof {
                    lemma_entry_ids_absent(self.books_by_owner_id@, caller@);
                }
                return Err(LedgerError::NotFound);
            },
        };
        proof {
            lemma_entry_ids_at(self.books_by_owner_id@, e as int, caller@);
        }
        let j = match position_of(&self.books_by_owner_id[e].book_ids, &book_id) {
            Some(j) => j,
            None => {
                proof {
                    if self.owner_index(caller@).contains(book_id@) {
                        let k = choose|k: int|
                            0 <= k < self.owner_index(caller@).len() && self.owner_index(
                                caller@,
                            )[k] == book_id@;
                        assert(self.books_by_owner_id@[e as int].book_ids@[k]@ == book_id@);
                    }
                }
                return Err(LedgerError::NotFound);
            },
        };
        let ghost old_ids = self.owner_index(caller@);
        proof {
            assert(old_ids[j as int] == book_id@);
            assert(old_ids.to_set().contains(book_id@));
            assert(ids_owned_by(old_store, caller@).contains(book_id@));
        }
        let i = match self.find_book(&book_id) {
            Some(i) => i,
            None => {
                return Err(LedgerError::NotFound);
            },
        };
        proof {
            lemma_record_at(old_store, i as int);
            let k = choose|k: int|
                0 <= k < old_store.len() && old_store[k].book_id == Some(book_id@)
                    && old_store[k].account_id == Some(caller@);
            assert(k == i);
        }
        let book = self.books.remove(i);
        self.keys = Ghost(self.keys@.remove(i as int));
        self.books_by_owner_id[e].book_ids.remove(j);
        proof {
            let store = self.store();
            let es = self.books_by_owner_id@;
            assert(store =~= old_store.remove(i as int));
            assert(owners_distinct(es));
            lemma_entry_ids_at(es, e as int, caller@);
            assert(es[e as int].ids() =~= old_ids.remove(j as int));
            assert forall|owner: Seq<char>| owner != caller@ implies #[trigger] entry_ids(es, owner)
                == entry_ids(old_es, owner) by {
                lemma_entry_ids_frame(old_es, es, owner);
            }
            assert forall|owner: Seq<char>|
                (#[trigger] self.owner_index(owner)).no_duplicates() && self.owner_index(
                    owner,
                ).to_set() == ids_owned_by(store, owner) by {
                assert(old_self.owner_index(owner).no_duplicates());
                assert(old_self.owner_index(owner).to_set() == ids_owned_by(old_store, owner));
                if owner == caller@ {
                    let ids = self.owner_index(owner);
                    assert forall|a: int, b: int|
                        0 <= a < ids.len() && 0 <= b < ids.len() && a != b implies ids[a]
                        != ids[b] by {
                        let a2 = if a < j { a } else { a + 1 };
                        let b2 = if b < j { b } else { b + 1 };
                        assert(ids[a] == old_ids[a2]);
                        assert(ids[b] == old_ids[b2]);
                    }
                    assert(ids.to_set() =~= ids_owned_by(store, owner)) by {
                        assert forall|x: Seq<char>| ids_owned_by(store, owner).contains(x)
                            implies ids.to_set().contains(x) by {
                            let k = choose|k: int|
                                0 <= k < store.len() && store[k].book_id == Some(x)
                                    && store[k].account_id == Some(owner);
                            let k2 = if k < i { k } else { k + 1 };
                            assert(store[k] == old_store[k2]);
                            assert(k2 != i);
                            assert(x != book_id@);
                            assert(ids_owned_by(old_store, owner).contains(x));
                            assert(old_ids.to_set().contains(x));
                            let m = choose|m: int| 0 <= m < old_ids.len() && old_ids[m] == x;
                            assert(m != j);
                            let m2 = if m < j { m } else { m - 1 };
                            assert(ids[m2] == x);
                        }
                        assert forall|x: Seq<char>| ids.to_set().contains(x)
                            implies ids_owned_by(store, owner).contains(x) by {
                            let m = choose|m: int| 0 <= m < ids.len() && ids[m] == x;
                            let m2 = if m < j { m } else { m + 1 };
                            assert(old_ids[m2] == x);
                            assert(m2 != j);
                            assert(x != book_id@);
                            assert(old_ids.to_set().contains(x));
                            assert(ids_owned_by(old_store, owner).contains(x));
                            let k = choose|k: int|
                                0 <= k < old_store.len() && old_store[k].book_id == Some(x)
                                    && old_store[k].account_id == Some(owner);
                            assert(k != i);
                            let k2 = if k < i { k } else { k - 1 };
                            assert(store[k2] == old_store[k]);
                        }
                    }
                } else {
                    assert(ids_owned_by(store, owner) =~= ids_owned_by(old_store, owner)) by {
                        assert forall|x: Seq<char>| ids_owned_by(store, owner).contains(x)
                            implies ids_owned_by(old_store, owner).contains(x) by {
                            let k = choose|k: int|
                                0 <= k < store.len() && store[k].book_id == Some(x)
                                    && store[k].account_id == Some(owner);
                            let k2 = if k < i { k } else { k + 1 };
                            assert(store[k] == old_store[k2]);
                        }
                        assert forall|x: Seq<char>| ids_owned_by(old_store, owner).contains(x)
                            implies ids_owned_by(store, owner).contains(x) by {
                            let k = choose|k: int|
                                0 <= k < old_store.len() && old_store[k].book_id == Some(x)
                                    && old_store[k].account_id == Some(owner);
                            assert(k != i);
                            let k2 = if k < i { k } else { k - 1 };
                            assert(store[k2] == old_store[k]);
                        }
                    }
                }
            }
            assert(!self.owner_index(caller@).to_set().contains(book_id@)) by {
                assert(!ids_owned_by(store, caller@).contains(book_id@)) by {
                    if ids_owned_by(store, caller@).contains(book_id@) {
                        let k = choose|k: int|
                            0 <= k < store.len() && store[k].book_id == Some(book_id@)
                                && store[k].account_id == Some(caller@);
                        let k2 = if k < i { k } else { k + 1 };
                        assert(store[k] == old_store[k2]);
                    }
                }
            }
            assert forall|k: int| 0 <= k < store.len() implies store[k].book_id != Some(
                book_id@,
            ) by {
                let k2 = if k < i { k } else { k + 1 };
                assert(store[k] == old_store[k2]);
            }
        }
        Ok(book)
    }

    /// The record `book_id`.
    pub fn get_book(&self, book_id: BookId) -> (r: Result<Book, LedgerError>)
        requires
            self.wf(),
        ensures
            match record_with_id(self.store(), book_id@) {
                Some(b) => r is Ok && r->Ok_0@ == b,
                None => r == Err::<Book, LedgerError>(LedgerError::NotFound),
            },
    {
        match self.find_book(&book_id) {
            Some(i) => {
                proof {
                    lemma_record_at(self.store(), i as int);
                }
                Ok(self.books[i].clone())
            },
            None => Err(LedgerError::NotFound),
        }
    }
}

impl Contract {
    /// A page of records: of all records in store order when `account_id` is
    /// empty, else of the records of that account in index order. `skip`
    /// records are passed over, and at most `limit` returned.
    pub fn get_books(&self, account_id: Option<String>, skip: u64, limit: Option<u64>) -> (r:
        Result<Vec<Book>, LedgerError>)
        requires
            self.wf(),
        ensures
            limit == Some(0u64) ==> r == Err::<Vec<Book>, LedgerError>(
                LedgerError::InvalidArgument,
            ),
            limit != Some(0u64) ==> r is Ok,
            r is Ok ==> match account_id {
                None => r->Ok_0@.map_values(|b: Book| b@) == page(
                    self.store(),
                    skip as nat,
                    limit_value(limit),
                ),
                Some(a) => {
                    let ids = page(self.owner_index(a@), skip as nat, limit_value(limit));
                    &&& r->Ok_0@.len() == ids.len()
                    &&& forall|k: int|
                        0 <= k < ids.len() ==> record_with_id(self.store(), ids[k]) == Some(
                            #[trigger] r->Ok_0@[k]@,
                        )
                }
            },
    {
        let limit: u64 = match limit {
            Some(v) => v,
            None => u64::MAX,
        };
        if limit == 0 {
            return Err(LedgerError::InvalidArgument);
        }
        let mut out: Vec<Book> = Vec::new();
        match account_id {
            None => {
                let (start, end) = page_bounds(self.books.len(), skip, limit);
                let mut i: usize = start;
                while i < end
                    invariant
                        start <= i <= end <= self.books@.len(),
                        out@.len() == i - start,
                        forall|k: int|
                            0 <= k < out@.len() ==> #[trigger] out@[k]@ == self.store()[start + k],
                    decreases end - i,
                {
                    out.push(self.books[i].clone());
                    i = i + 1;
                }
                assert(out@.map_values(|b: Book| b@) =~= self.store().subrange(
                    start as int,
                    end as int,
                ));
            },
            Some(a) => {
                let e = match self.find_owner(&a) {
                    Some(e) => e,
                    None => {
                        proof {
                            lemma_entry_ids_absent(self.books_by_owner_id@, a@);
                        }
                        return Ok(out);
                    },
                };
                proof {
                    lemma_entry_ids_at(self.books_by_owner_id@, e as int, a@);
                }
                let ids = &self.books_by_owner_id[e].book_ids;
                let ghost index = self.owner_index(a@);
                let (start, end) = page_bounds(ids.len(), skip, limit);
                let mut k: usize = start;
                while k < end
                    invariant
                        self.wf(),
                        start <= k <= end <= ids@.len(),
                        index == self.owner_index(a@),
                        index == ids@.map_values(|s: String| s@),
                        out@.len() == k - start,
                        forall|m: int|
                            0 <= m < out@.len() ==> record_with_id(self.store(), index[start + m])
                                == Some(#[trigger] out@[m]@),
                    decreases end - k,
                {
                    let id = &ids[k];
                    proof {
                        assert(index[k as int] == id@);
                        assert(index.to_set().contains(id@));
                        assert(ids_owned_by(self.store(), a@).contains(id@));
                    }
                    match self.find_book(id) {
                        Some(i) => {
                            proof {
                                lemma_record_at(self.store(), i as int);
                            }
                            out.push(self.books[i].clone());
                        },
                        None => {
                            return Err(LedgerError::ConsistencyError);
                        },
                    }
                    k = k + 1;
                }
            },
        }
        Ok(out)
    }
}

impl Contract {
    /// How many records were ever added; the next identifier is one more.
    pub fn books_len(&self) -> (r: u64)
        ensures
            r == self.books_created(),
    {
        self.books_len
    }
}

impl Default for Contract {
    /// An empty ledger.
    fn default() -> (r: Contract)
        ensures
            r.wf(),
            r.store() == Seq::<BookView>::empty(),
            forall|owner: Seq<char>| #[trigger] r.owner_index(owner) == Seq::<Seq<char>>::empty(),
            r.books_created() == 0,
    {
        let r = Contract {
            books_by_owner_id: Vec::new(),
            books: Vec::new(),
            books_len: 0,
            keys: Ghost(Seq::empty()),
        };
        assert(r.store() =~= Seq::<BookView>::empty());
        assert forall|owner: Seq<char>|
            #[trigger] r.owner_index(owner) == Seq::<Seq<char>>::empty()
            && r.owner_index(owner).to_set() == ids_owned_by(r.store(), owner) by {
            lemma_entry_ids_absent(r.books_by_owner_id@, owner);
            assert(r.owner_index(owner).to_set() =~= ids_owned_by(r.store(), owner));
        }
        r
    }
}

/// Identifiers drawn from distinct counts are distinct: as the count of
/// records ever added only grows, no identifier is handed out twice, even
/// after deletions.
pub proof fn lemma_ids_never_repeat(a: nat, b: nat)
    requires
        a != b,
    ensures
        decimal(a) != decimal(b),
{
    if decimal(a) == decimal(b) {
        lemma_decimal_injective(a, b);
    }
}

/// In a well-formed ledger the owner index and the store agree: each
/// identifier stands at most once in an owner's index, and it stands there
/// exactly when the store holds a record with that identifier and owner.
/// Identifiers are unique in the store.
pub proof fn lemma_index_consistency(c: &Contract, owner: Seq<char>)
    requires
        c.wf(),
    ensures
        ids_unique(c.store()),
        c.owner_index(owner).no_duplicates(),
        forall|id: Seq<char>|
            #[trigger] c.owner_index(owner).contains(id) <==> (record_with_id(c.store(), id) is Some
                && record_with_id(c.store(), id)->Some_0.account_id == Some(owner)),
{
    let store = c.store();
    assert forall|id: Seq<char>|
        #[trigger] c.owner_index(owner).contains(id) <==> (record_with_id(store, id) is Some
            && record_with_id(store, id)->Some_0.account_id == Some(owner)) by {
        assert(c.owner_index(owner).to_set() == ids_owned_by(store, owner));
        if c.owner_index(owner).contains(id) {
            assert(c.owner_index(owner).to_set().contains(id));
            let i = choose|i: int|
                0 <= i < store.len() && store[i].book_id == Some(id) && store[i].account_id == Some(
                    owner,
                );
            lemma_record_at(store, i);
        }
        if record_with_id(store, id) is Some && record_with_id(store, id)->Some_0.account_id
            == Some(owner) {
            let i = choose|i: int| 0 <= i < store.len() && store[i].book_id == Some(id);
            assert(ids_owned_by(store, owner).contains(id));
            assert(c.owner_index(owner).to_set().contains(id));
        }
    }
}

/// A record stamped with a fresh identifier and appended to the store is
/// found again under that identifier, with the fields it was given.
pub proof fn lemma_round_trip(store: Seq<BookView>, book: BookView, id: Seq<char>, caller: Seq<char>)
    requires
        ids_unique(store),
        record_with_id(store, id) is None,
    ensures
        record_with_id(store.push(stamped(book, id, caller)), id) == Some(stamped(book, id, caller)),
        ids_unique(store.push(stamped(book, id, caller))),
{
    let s2 = store.push(stamped(book, id, caller));
    assert forall|i: int, j: int|
        0 <= i < s2.len() && 0 <= j < s2.len() && i != j implies s2[i].book_id != s2[j].book_id by {
        if i < store.len() && j == store.len() {
            assert(store[i].book_id != Some(id));
        }
        if j < store.len() && i == store.len() {
            assert(store[j].book_id != Some(id));
        }
    }
    lemma_record_at(s2, store.len() as int);
}

/// Setting a status changes the status of the record with that identifier
/// and nothing else.
pub proof fn lemma_update_changes_status_only(store: Seq<BookView>, id: Seq<char>, status: Status)
    ensures
        set_status(store, id, status).len() == store.len(),
        forall|i: int|
            0 <= i < store.len() ==> {
                let after = #[trigger] set_status(store, id, status)[i];
                &&& after.book_id == store[i].book_id
                &&& after.account_id == store[i].account_id
                &&& after.title == store[i].title
                &&& after.description == store[i].description
                &&& after.image == store[i].image
                &&& after.status == if store[i].book_id == Some(id) {
                    status
                } else {
                    store[i].status
                }
            },
{
}

/// Removing the one record with a given identifier leaves none with it.
pub proof fn lemma_delete_finality(store: Seq<BookView>, i: int)
    requires
        ids_unique(store),
        0 <= i < store.len(),
        store[i].book_id is Some,
    ensures
        record_with_id(store.remove(i), store[i].book_id->Some_0) is None,
{
    let s2 = store.remove(i);
    assert forall|k: int| 0 <= k < s2.len() implies s2[k].book_id != store[i].book_id by {
        let k2 = if k < i { k } else { k + 1 };
        assert(s2[k] == store[k2]);
    }
}

/// Skipping at least as many items as there are gives an empty page.
pub proof fn lemma_page_past_end<A>(s: Seq<A>, skip: nat, limit: nat)
    requires
        skip >= s.len(),
    ensures
        page(s, skip, limit) == Seq::<A>::empty(),
{
    assert(page(s, skip, limit) =~= Seq::<A>::empty());
}

} // verus!
