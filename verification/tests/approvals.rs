use nft_registry::approval::{token_owner_idx, Approval, TokenInfo};
use nft_registry::counter::TokenCounter;
use nft_registry::error::RegistryError;
use nft_registry::expiration::{BlockInfo, Expiration};
use nft_registry::order::{compare_ids, Place};

fn token(owner: &str) -> TokenInfo {
    TokenInfo { owner: owner.to_string(), approvals: vec![], token_uri: None, extension: vec![] }
}

fn at(height: u64, time: u64) -> BlockInfo {
    BlockInfo { height, time }
}

fn approval(spender: &str, expires: Expiration) -> Approval {
    Approval { spender: spender.to_string(), expires }
}

#[test]
fn height_bound_lapses_at_the_bound() {
    let a = approval("carol", Expiration::AtHeight(100));
    assert!(!a.is_expired(&at(99, 0)));
    assert!(a.is_expired(&at(100, 0)));
    assert!(a.is_expired(&at(101, 0)));
}

#[test]
fn time_bound_looks_at_time_only() {
    let e = Expiration::AtTime(50);
    assert!(!e.is_expired(&at(1000, 49)));
    assert!(e.is_expired(&at(0, 50)));
    assert!(e.is_expired(&at(0, u64::MAX)));
    let h = Expiration::AtHeight(50);
    assert!(!h.is_expired(&at(49, 1000)));
    assert!(h.is_expired(&at(50, 0)));
}

#[test]
fn never_does_not_lapse() {
    assert!(!Expiration::Never.is_expired(&at(u64::MAX, u64::MAX)));
    assert!(!Expiration::Never.is_expired(&at(0, 0)));
    assert!(Expiration::AtHeight(0).is_expired(&at(0, 0)));
}

#[test]
fn repeated_approval_leaves_one_entry_with_the_last_bound() {
    let mut t = token("alice");
    t.approve("carol", Expiration::AtHeight(5));
    t.approve("dave", Expiration::Never);
    t.approve("carol", Expiration::AtHeight(7));
    t.approve("carol", Expiration::AtTime(9));
    assert_eq!(
        t.approvals,
        vec![approval("dave", Expiration::Never), approval("carol", Expiration::AtTime(9))]
    );
}

#[test]
fn approve_drops_every_earlier_entry_of_the_spender() {
    let mut t = token("alice");
    t.approvals = vec![
        approval("carol", Expiration::Never),
        approval("dave", Expiration::Never),
        approval("carol", Expiration::AtHeight(3)),
    ];
    t.approve("carol", Expiration::AtHeight(8));
    assert_eq!(
        t.approvals,
        vec![approval("dave", Expiration::Never), approval("carol", Expiration::AtHeight(8))]
    );
}

#[test]
fn revoke_of_an_absent_spender_changes_nothing() {
    let mut t = token("alice");
    t.approve("carol", Expiration::Never);
    t.revoke("dave");
    assert_eq!(t.approvals, vec![approval("carol", Expiration::Never)]);
    t.revoke("carol");
    assert!(t.approvals.is_empty());
    t.revoke("carol");
    assert!(t.approvals.is_empty());
    assert_eq!(t, token("alice"));
}

#[test]
fn clear_approvals_empties_the_list() {
    let mut t = token("alice");
    t.approve("carol", Expiration::Never);
    t.approve("dave", Expiration::Never);
    t.clear_approvals();
    assert_eq!(t, token("alice"));
}

#[test]
fn is_approved_needs_an_entry_that_has_not_lapsed() {
    let mut t = token("alice");
    assert!(!t.is_approved("carol", &at(1, 1)));
    t.approve("carol", Expiration::AtHeight(10));
    t.approve("dave", Expiration::AtTime(10));
    assert!(t.is_approved("carol", &at(9, 100)));
    assert!(!t.is_approved("carol", &at(10, 0)));
    assert!(t.is_approved("dave", &at(100, 9)));
    assert!(!t.is_approved("dave", &at(0, 10)));
    assert!(!t.is_approved("erin", &at(0, 0)));
}

#[test]
fn duplicate_copies_every_field() {
    let t = TokenInfo {
        owner: "alice".to_string(),
        approvals: vec![approval("carol", Expiration::AtTime(4))],
        token_uri: Some("uri".to_string()),
        extension: vec![9, 8, 7],
    };
    assert_eq!(t.duplicate(), t);
    assert_eq!(t.approvals[0].duplicate(), t.approvals[0]);
}

#[test]
fn index_key_is_the_owner() {
    let t = token("alice");
    assert_eq!(token_owner_idx(b"1", &t), "alice");
    assert_eq!(token_owner_idx(b"another", &t), "alice");
}

#[test]
fn counter_treats_absence_as_zero() {
    let mut c = TokenCounter::new();
    assert_eq!(c.stored(), None);
    assert_eq!(c.token_count(), 0);
    assert_eq!(c.decrement_tokens(), Err(RegistryError::Underflow));
    assert_eq!(c.stored(), None);
    assert_eq!(c.increment_tokens(), 1);
    assert_eq!(c.stored(), Some(1));
    let mut d = TokenCounter::from_stored(Some(41));
    assert_eq!(d.increment_tokens(), 42);
    assert_eq!(d.decrement_tokens(), Ok(41));
    assert_eq!(d.token_count(), 41);
    let mut z = TokenCounter::from_stored(Some(0));
    assert_eq!(z.decrement_tokens(), Err(RegistryError::Underflow));
    assert_eq!(z.stored(), Some(0));
}

#[test]
fn identifiers_compare_character_by_character() {
    assert_eq!(compare_ids("", ""), Place::Same);
    assert_eq!(compare_ids("", "a"), Place::Before);
    assert_eq!(compare_ids("a", ""), Place::After);
    assert_eq!(compare_ids("10", "2"), Place::Before);
    assert_eq!(compare_ids("abc", "abd"), Place::Before);
    assert_eq!(compare_ids("abd", "abc"), Place::After);
    assert_eq!(compare_ids("ab", "abc"), Place::Before);
    assert_eq!(compare_ids("abc", "abc"), Place::Same);
    assert_eq!(compare_ids("z", "\u{e9}"), Place::Before);
    assert_eq!(compare_ids("\u{e9}", "z"), Place::After);
}
