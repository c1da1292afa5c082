use crud_messages::listing::{sort_order_of, PaginationParams, SortOrder};
use crud_messages::message::{Message, MessageError, Principal};
use crud_messages::store::{MessageStore, DAY_NANOS};
use crud_messages::text::is_blank_text;

fn alice() -> Principal {
    Principal::new(vec![1, 2, 3])
}

fn bob() -> Principal {
    Principal::new(vec![9])
}

fn post(store: &mut MessageStore, text: &str, parent: Option<u64>, who: Principal, now: u64) -> Message {
    store.create_message(text.to_string(), parent, who, now).expect("create")
}

fn params(page: u32, limit: u32, sort_by: Option<&str>) -> PaginationParams {
    PaginationParams { page, limit, sort_by: sort_by.map(|s| s.to_string()) }
}

fn ids(ms: &[Message]) -> Vec<u64> {
    ms.iter().map(|m| m.id).collect()
}

#[test]
fn ids_increase_and_are_never_reused() {
    let mut store = MessageStore::new();
    let a = post(&mut store, "one", None, alice(), 10);
    let b = post(&mut store, "two", None, alice(), 11);
    assert_eq!((a.id, b.id), (1, 2));
    store.delete_message(b.id, &alice()).unwrap();
    let c = post(&mut store, "three", None, alice(), 12);
    assert_eq!(c.id, 3);
    store.delete_message(a.id, &alice()).unwrap();
    store.delete_message(c.id, &alice()).unwrap();
    let d = post(&mut store, "four", None, bob(), 13);
    assert_eq!(d.id, 4);
}

#[test]
fn blank_content_is_refused() {
    let mut store = MessageStore::new();
    assert_eq!(
        store.create_message("   ".to_string(), None, alice(), 1).unwrap_err(),
        MessageError::Validation
    );
    assert_eq!(
        store.create_message(String::new(), None, alice(), 1).unwrap_err(),
        MessageError::Validation
    );
    let m = post(&mut store, " hi ", None, alice(), 1);
    assert_eq!(m.content, " hi ");
    assert_eq!(
        store.update_message(m.id, "  ".to_string(), &alice(), 2).unwrap_err(),
        MessageError::Validation
    );
    assert_eq!(store.get_message(m.id).unwrap().content, " hi ");
}

#[test]
fn blank_text_follows_unicode_white_space() {
    assert!(is_blank_text(""));
    assert!(is_blank_text(" \t\n\r"));
    assert!(is_blank_text("\u{3000}\u{a0}"));
    assert!(!is_blank_text("a"));
    assert!(!is_blank_text("  x  "));
}

#[test]
fn blank_content_wins_over_missing_parent() {
    let mut store = MessageStore::new();
    assert_eq!(
        store.create_message(" ".to_string(), Some(7), alice(), 1).unwrap_err(),
        MessageError::Validation
    );
    assert_eq!(
        store.create_message("x".to_string(), Some(7), alice(), 1).unwrap_err(),
        MessageError::NotFound
    );
}

#[test]
fn only_the_author_updates_or_deletes() {
    let mut store = MessageStore::new();
    let m = post(&mut store, "mine", None, alice(), 5);
    assert_eq!(
        store.update_message(m.id, "theirs".to_string(), &bob(), 6).unwrap_err(),
        MessageError::Authorization
    );
    assert_eq!(store.delete_message(m.id, &bob()).unwrap_err(), MessageError::Authorization);
    let u = store.update_message(m.id, "edited".to_string(), &alice(), 7).unwrap();
    assert_eq!(u.content, "edited");
    assert_eq!(u.updated_at, Some(7));
    assert_eq!(u.created_at, 5);
    assert_eq!(store.get_message(m.id).unwrap().content, "edited");
    store.delete_message(m.id, &alice()).unwrap();
    assert_eq!(store.get_message(m.id).unwrap_err(), MessageError::NotFound);
}

#[test]
fn replies_link_and_unlink() {
    let mut store = MessageStore::new();
    let p = post(&mut store, "parent", None, alice(), 1);
    let c = post(&mut store, "child", Some(p.id), bob(), 2);
    assert_eq!(c.parent_id, Some(p.id));
    assert_eq!(store.get_message(p.id).unwrap().replies, vec![c.id]);
    let thread = store.get_message_thread(p.id).unwrap();
    assert_eq!(ids(&thread), vec![p.id, c.id]);
    assert_eq!(thread[0].replies, vec![c.id]);
    store.delete_message(c.id, &bob()).unwrap();
    assert_eq!(store.get_message(p.id).unwrap().replies, Vec::<u64>::new());
    assert_eq!(ids(&store.get_message_thread(p.id).unwrap()), vec![p.id]);
}

#[test]
fn deleting_a_parent_leaves_its_replies() {
    let mut store = MessageStore::new();
    let p = post(&mut store, "parent", None, alice(), 1);
    let c1 = post(&mut store, "first", Some(p.id), bob(), 2);
    let c2 = post(&mut store, "second", Some(p.id), bob(), 3);
    assert_eq!(ids(&store.get_message_thread(p.id).unwrap()), vec![p.id, c1.id, c2.id]);
    store.delete_message(p.id, &alice()).unwrap();
    let orphan = store.get_message(c1.id).unwrap();
    assert_eq!(orphan.parent_id, Some(p.id));
    assert_eq!(store.get_message_thread(p.id).unwrap_err(), MessageError::NotFound);
    assert_eq!(
        store.create_message("late".to_string(), Some(p.id), bob(), 4).unwrap_err(),
        MessageError::NotFound
    );
}

#[test]
fn pages_of_five_by_two() {
    let mut store = MessageStore::new();
    for t in 1..=5u64 {
        post(&mut store, "top", None, alice(), t * 100);
    }
    post(&mut store, "reply", Some(1), bob(), 600);
    let first = store.get_messages(&params(1, 2, None)).unwrap();
    assert_eq!(ids(&first.messages), vec![5, 4]);
    assert_eq!(first.total, 5);
    assert_eq!(first.total_pages, 3);
    assert_eq!(first.page, 1);
    assert!(!first.has_previous);
    assert!(first.has_next);
    let third = store.get_messages(&params(3, 2, None)).unwrap();
    assert_eq!(ids(&third.messages), vec![1]);
    assert!(!third.has_next);
    assert!(third.has_previous);
    let past = store.get_messages(&params(4, 2, Some("newest"))).unwrap();
    assert!(past.messages.is_empty());
    assert_eq!(past.total, 5);
    assert_eq!(past.total_pages, 3);
    assert!(!past.has_next);
}

#[test]
fn page_or_limit_of_zero_is_refused() {
    let store = MessageStore::new();
    assert_eq!(store.get_messages(&params(1, 0, None)).err(), Some(MessageError::Validation));
    assert_eq!(store.get_messages(&params(0, 3, None)).err(), Some(MessageError::Validation));
    let empty = store.get_messages(&params(1, 3, None)).unwrap();
    assert_eq!(empty.total, 0);
    assert_eq!(empty.total_pages, 0);
    assert!(!empty.has_next);
}

#[test]
fn sort_orders_and_ties() {
    let mut store = MessageStore::new();
    post(&mut store, "a", None, alice(), 30);
    post(&mut store, "b", None, alice(), 10);
    post(&mut store, "c", None, bob(), 30);
    post(&mut store, "d", None, bob(), 20);
    store.like_message(2).unwrap();
    store.like_message(2).unwrap();
    store.like_message(4).unwrap();
    store.like_message(3).unwrap();
    let newest = store.get_messages(&params(1, 10, None)).unwrap();
    assert_eq!(ids(&newest.messages), vec![1, 3, 4, 2]);
    let oldest = store.get_messages(&params(1, 10, Some("oldest"))).unwrap();
    assert_eq!(ids(&oldest.messages), vec![2, 4, 1, 3]);
    let popular = store.get_messages(&params(1, 10, Some("popular"))).unwrap();
    assert_eq!(ids(&popular.messages), vec![2, 3, 4, 1]);
    let other = store.get_messages(&params(1, 10, Some("Oldest"))).unwrap();
    assert_eq!(ids(&other.messages), vec![1, 3, 4, 2]);
}

#[test]
fn sort_names() {
    assert_eq!(sort_order_of(&None), SortOrder::Newest);
    assert_eq!(sort_order_of(&Some("oldest".to_string())), SortOrder::Oldest);
    assert_eq!(sort_order_of(&Some("popular".to_string())), SortOrder::Popular);
    assert_eq!(sort_order_of(&Some("newest".to_string())), SortOrder::Newest);
    assert_eq!(sort_order_of(&Some("old".to_string())), SortOrder::Newest);
}

#[test]
fn stats_count_messages_authors_and_recent() {
    let mut store = MessageStore::new();
    let now = 5 * DAY_NANOS;
    post(&mut store, "one", None, alice(), now);
    post(&mut store, "two", None, alice(), now);
    post(&mut store, "three", None, bob(), now);
    let stats = store.get_stats(now);
    assert_eq!(stats.total_messages, 3);
    assert_eq!(stats.total_authors, 2);
    assert_eq!(stats.messages_today, 3);
    let later = store.get_stats(now + DAY_NANOS - 1);
    assert_eq!(later.messages_today, 3);
    let next_day = store.get_stats(now + DAY_NANOS);
    assert_eq!(next_day.messages_today, 0);
    assert_eq!(next_day.total_authors, 2);
}

#[test]
fn stats_of_an_empty_store() {
    let stats = MessageStore::new().get_stats(0);
    assert_eq!(
        (stats.total_messages, stats.total_authors, stats.messages_today),
        (0, 0, 0)
    );
}

#[test]
fn liking_twice_adds_two() {
    let mut store = MessageStore::new();
    let m = post(&mut store, "like me", None, alice(), 1);
    assert_eq!(m.likes, 0);
    store.like_message(m.id).unwrap();
    store.like_message(m.id).unwrap();
    assert_eq!(store.get_message(m.id).unwrap().likes, 2);
}

#[test]
fn missing_ids_are_not_found() {
    let mut store = MessageStore::new();
    post(&mut store, "here", None, alice(), 1);
    let missing = 42;
    assert_eq!(store.get_message(missing).unwrap_err(), MessageError::NotFound);
    assert_eq!(
        store.update_message(missing, "x".to_string(), &alice(), 2).unwrap_err(),
        MessageError::NotFound
    );
    assert_eq!(store.delete_message(missing, &alice()).unwrap_err(), MessageError::NotFound);
    assert_eq!(store.like_message(missing).unwrap_err(), MessageError::NotFound);
    assert_eq!(store.get_message_thread(missing).unwrap_err(), MessageError::NotFound);
    assert_eq!(
        store.create_message("x".to_string(), Some(missing), alice(), 2).unwrap_err(),
        MessageError::NotFound
    );
}

#[test]
fn author_counts_follow_creates_and_deletes() {
    let mut store = MessageStore::new();
    let a1 = post(&mut store, "a1", None, alice(), 1);
    post(&mut store, "a2", None, alice(), 2);
    post(&mut store, "b1", None, bob(), 3);
    assert_eq!(store.author_message_count(&alice()), 2);
    assert_eq!(store.author_message_count(&bob()), 1);
    assert_eq!(store.author_message_count(&Principal::new(vec![7, 7])), 0);
    store.delete_message(a1.id, &alice()).unwrap();
    assert_eq!(store.author_message_count(&alice()), 1);
}

#[test]
fn principals_compare_by_bytes() {
    assert!(alice().same_as(&Principal::new(vec![1, 2, 3])));
    assert!(!alice().same_as(&Principal::new(vec![1, 2])));
    assert!(!alice().same_as(&Principal::new(vec![1, 2, 4])));
}
