use velocidb::database::Database;
use velocidb::storage::{Page, Pager, PAGE_SIZE};

#[test]
fn test_pager_create() {
    let pager = Pager::new();
    assert_eq!(pager.num_pages(), 0);
}

#[test]
fn test_page_allocation() {
    let mut pager = Pager::new();

    let page_id = pager.allocate_page().unwrap();
    assert_eq!(page_id, 0);
    assert_eq!(pager.num_pages(), 1);
}

#[test]
fn test_read_write_page() {
    let mut pager = Pager::new();

    let page_id = pager.allocate_page().unwrap();

    let mut page = Page::new();
    page.data_mut()[0..4].copy_from_slice(&[1, 2, 3, 4]);

    pager.write_page(page_id, &page).unwrap();

    let read_page = pager.read_page(page_id).unwrap();
    assert_eq!(read_page.data()[0..4], [1, 2, 3, 4]);
}

#[test]
fn test_database_create() {
    let mut db = Database::open(Vec::new());
    let writes = db.take_pending_writes();
    assert!(writes.len() >= 1);
}

#[test]
fn pager_read_past_end_is_an_error() {
    let pager = Pager::new();
    assert!(pager.read_page(0).is_err());
}

#[test]
fn pager_write_past_end_grows_the_store() {
    let mut pager = Pager::new();
    let mut page = Page::new();
    page.data_mut()[0] = 5;
    pager.write_page(3, &page).unwrap();
    assert_eq!(pager.num_pages(), 4);
    assert_eq!(pager.read_page(3).unwrap().data()[0], 5);
    assert_eq!(pager.read_page(1).unwrap().data()[0], 0);
}

#[test]
fn pager_pending_writes_are_handed_out_once() {
    let mut pager = Pager::new();
    let id = pager.allocate_page().unwrap();
    let mut page = Page::new();
    page.data_mut()[PAGE_SIZE - 1] = 9;
    pager.write_page(id, &page).unwrap();
    let writes = pager.take_pending_writes();
    assert_eq!(writes.len(), 2);
    assert_eq!(writes[1].0, 0);
    assert_eq!(writes[1].1.data()[PAGE_SIZE - 1], 9);
    assert!(pager.take_pending_writes().is_empty());
}

#[test]
fn pager_open_keeps_file_pages() {
    let mut page = Page::new();
    page.data_mut()[0] = 7;
    let pager = Pager::open(vec![Page::new(), page]);
    assert_eq!(pager.num_pages(), 2);
    assert_eq!(pager.read_page(1).unwrap().data()[0], 7);
}

#[test]
fn page_bytes_round_trip() {
    let mut page = Page::new();
    page.data_mut()[10] = 42;
    let bytes = page.to_bytes();
    assert_eq!(bytes.len(), PAGE_SIZE);
    let again = Page::from_bytes(&bytes);
    assert_eq!(again.data()[10], 42);
}
