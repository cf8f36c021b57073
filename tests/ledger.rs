use book_ledger::{decimal_string, Book, Contract, LedgerError, Status};

fn mechanics_book() -> Book {
    Book {
        book_id: None,
        account_id: None,
        description: "Tutorial for mechanics".to_string(),
        image: "https://example.com".to_string(),
        status: Status::List,
        title: "Motorcycle Mechanics 101".to_string(),
    }
}

fn titled(title: &str) -> Book {
    Book {
        book_id: None,
        account_id: None,
        description: String::new(),
        image: String::new(),
        status: Status::List,
        title: title.to_string(),
    }
}

fn titles(books: &[Book]) -> Vec<String> {
    books.iter().map(|b| b.title.clone()).collect()
}

#[test]
fn test_add_book() {
    let mut contract = Contract::default();
    let book_id = contract.add_book("carol_near".to_string(), mechanics_book());

    let book = contract.get_book(book_id.clone()).unwrap();
    assert_eq!(book.book_id.unwrap(), book_id);
    assert_eq!(book.description, "Tutorial for mechanics".to_string());
    assert_eq!(book.image, "https://example.com".to_string());
    assert_eq!(book.title, "Motorcycle Mechanics 101".to_string());
}

#[test]
fn test_update_book() {
    let mut contract = Contract::default();
    let book_id = contract.add_book("carol_near".to_string(), mechanics_book());

    let updated = contract.update_book("carol_near".to_string(), book_id.clone(), Status::Read);
    assert_eq!(updated.unwrap().status, Status::Read);
    assert_eq!(contract.get_book(book_id).unwrap().status, Status::Read);
}

#[test]
#[should_panic(expected = "Book does not exist")]
fn test_delete_book() {
    let mut contract = Contract::default();
    let book_id = contract.add_book("carol_near".to_string(), mechanics_book());

    contract.delete_book("carol_near".to_string(), book_id.clone()).unwrap();

    let _book = contract.get_book(book_id.clone()).expect("Book does not exist");
}

#[test]
fn ids_start_at_one_and_never_repeat() {
    let mut contract = Contract::default();
    let a = contract.add_book("alice".to_string(), titled("a"));
    let b = contract.add_book("alice".to_string(), titled("b"));
    assert_eq!(a, "1");
    assert_eq!(b, "2");
    contract.delete_book("alice".to_string(), b).unwrap();
    let c = contract.add_book("bob".to_string(), titled("c"));
    assert_eq!(c, "3");
    let mut ids = Vec::new();
    for i in 0..9 {
        ids.push(contract.add_book("bob".to_string(), titled(&format!("t{}", i))));
    }
    assert_eq!(ids.last().unwrap(), "12");
}

#[test]
fn decimal_string_writes_digits() {
    assert_eq!(decimal_string(0), "0");
    assert_eq!(decimal_string(7), "7");
    assert_eq!(decimal_string(10), "10");
    assert_eq!(decimal_string(907), "907");
    assert_eq!(decimal_string(u64::MAX), "18446744073709551615");
}

#[test]
fn index_follows_add_update_delete() {
    let mut contract = Contract::default();
    let a1 = contract.add_book("alice".to_string(), titled("a1"));
    let b1 = contract.add_book("bob".to_string(), titled("b1"));
    let a2 = contract.add_book("alice".to_string(), titled("a2"));
    contract.update_book("alice".to_string(), a2.clone(), Status::Finished).unwrap();
    contract.delete_book("alice".to_string(), a1).unwrap();

    let alice = contract.get_books(Some("alice".to_string()), 0, None).unwrap();
    assert_eq!(titles(&alice), vec!["a2".to_string()]);
    assert_eq!(alice[0].account_id.as_deref(), Some("alice"));
    assert_eq!(alice[0].status, Status::Finished);
    let bob = contract.get_books(Some("bob".to_string()), 0, None).unwrap();
    assert_eq!(bob.len(), 1);
    assert_eq!(bob[0].book_id.as_deref(), Some(b1.as_str()));
    let all = contract.get_books(None, 0, None).unwrap();
    assert_eq!(titles(&all), vec!["b1".to_string(), "a2".to_string()]);
}

#[test]
fn round_trip_keeps_fields_and_sets_owner() {
    let mut contract = Contract::default();
    let id = contract.add_book("dave".to_string(), mechanics_book());
    let book = contract.get_book(id.clone()).unwrap();
    assert_eq!(book.book_id, Some(id));
    assert_eq!(book.account_id, Some("dave".to_string()));
    assert_eq!(book.title, "Motorcycle Mechanics 101");
    assert_eq!(book.description, "Tutorial for mechanics");
    assert_eq!(book.image, "https://example.com");
    assert_eq!(book.status, Status::List);
}

#[test]
fn update_changes_only_status() {
    let mut contract = Contract::default();
    let id = contract.add_book("erin".to_string(), mechanics_book());
    let before = contract.get_book(id.clone()).unwrap();
    let after = contract.update_book("erin".to_string(), id.clone(), Status::Finished).unwrap();
    assert_eq!(after.status, Status::Finished);
    assert_eq!(after.book_id, before.book_id);
    assert_eq!(after.account_id, before.account_id);
    assert_eq!(after.title, before.title);
    assert_eq!(after.description, before.description);
    assert_eq!(after.image, before.image);
}

#[test]
fn update_by_other_owner_is_not_found() {
    let mut contract = Contract::default();
    let id = contract.add_book("alice".to_string(), titled("a"));
    contract.add_book("bob".to_string(), titled("b"));
    let r = contract.update_book("bob".to_string(), id.clone(), Status::Read);
    assert_eq!(r.err(), Some(LedgerError::NotFound));
    assert_eq!(contract.get_book(id).unwrap().status, Status::List);
}

#[test]
fn update_by_caller_without_records_is_not_found() {
    let mut contract = Contract::default();
    let id = contract.add_book("alice".to_string(), titled("a"));
    let r = contract.update_book("nobody".to_string(), id, Status::Read);
    assert_eq!(r.err(), Some(LedgerError::NotFound));
}

#[test]
fn delete_of_missing_or_foreign_record_is_not_found() {
    let mut contract = Contract::default();
    let id = contract.add_book("alice".to_string(), titled("a"));
    assert_eq!(
        contract.delete_book("bob".to_string(), id.clone()).err(),
        Some(LedgerError::NotFound)
    );
    assert_eq!(
        contract.delete_book("alice".to_string(), "99".to_string()).err(),
        Some(LedgerError::NotFound)
    );
    assert!(contract.get_book(id).is_ok());
}

#[test]
fn delete_is_final() {
    let mut contract = Contract::default();
    let id = contract.add_book("alice".to_string(), titled("a"));
    let removed = contract.delete_book("alice".to_string(), id.clone()).unwrap();
    assert_eq!(removed.title, "a");
    assert_eq!(contract.get_book(id.clone()).err(), Some(LedgerError::NotFound));
    assert!(contract.get_books(Some("alice".to_string()), 0, None).unwrap().is_empty());
    assert_eq!(
        contract.delete_book("alice".to_string(), id).err(),
        Some(LedgerError::NotFound)
    );
}

#[test]
fn get_of_unknown_id_is_not_found() {
    let contract = Contract::default();
    assert_eq!(contract.get_book("1".to_string()).err(), Some(LedgerError::NotFound));
}

#[test]
fn pagination_boundaries() {
    let mut contract = Contract::default();
    for t in ["a", "b", "c"] {
        contract.add_book("alice".to_string(), titled(t));
    }
    assert!(contract.get_books(None, 3, Some(10)).unwrap().is_empty());
    assert!(contract.get_books(None, 50, Some(10)).unwrap().is_empty());
    assert_eq!(contract.get_books(None, 0, Some(0)).err(), Some(LedgerError::InvalidArgument));
    assert_eq!(
        contract.get_books(Some("alice".to_string()), 0, Some(0)).err(),
        Some(LedgerError::InvalidArgument)
    );
    let page = contract.get_books(None, 1, Some(1)).unwrap();
    assert_eq!(titles(&page), vec!["b".to_string()]);
    let page = contract.get_books(None, 1, None).unwrap();
    assert_eq!(titles(&page), vec!["b".to_string(), "c".to_string()]);
    let page = contract.get_books(Some("alice".to_string()), 2, Some(5)).unwrap();
    assert_eq!(titles(&page), vec!["c".to_string()]);
}

#[test]
fn empty_ledger_lists_nothing() {
    let contract = Contract::default();
    assert!(contract.get_books(None, 0, None).unwrap().is_empty());
    assert!(contract.get_books(Some("alice".to_string()), 0, Some(3)).unwrap().is_empty());
}

#[test]
fn scenario_three_for_a_one_for_b() {
    let mut contract = Contract::default();
    let a1 = contract.add_book("a".to_string(), titled("a1"));
    let a2 = contract.add_book("a".to_string(), titled("a2"));
    let a3 = contract.add_book("a".to_string(), titled("a3"));
    contract.add_book("b".to_string(), titled("b1"));

    let listed = contract.get_books(Some("a".to_string()), 0, None).unwrap();
    let ids: Vec<String> = listed.iter().map(|b| b.book_id.clone().unwrap()).collect();
    assert_eq!(ids, vec![a1.clone(), a2.clone(), a3.clone()]);

    assert!(contract.get_books(Some("b".to_string()), 1, None).unwrap().is_empty());

    contract.delete_book("a".to_string(), a2.clone()).unwrap();
    assert_eq!(contract.get_book(a2).err(), Some(LedgerError::NotFound));
    let listed = contract.get_books(Some("a".to_string()), 0, None).unwrap();
    let ids: Vec<String> = listed.iter().map(|b| b.book_id.clone().unwrap()).collect();
    assert_eq!(ids, vec![a1, a3]);
}
