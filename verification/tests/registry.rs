use nft_registry::approval::{Approval, TokenInfo};
use nft_registry::error::RegistryError;
use nft_registry::expiration::{BlockInfo, Expiration};
use nft_registry::registry::Cw721Contract;

fn record(owner: &str) -> TokenInfo {
    TokenInfo {
        owner: owner.to_string(),
        approvals: vec![],
        token_uri: Some(format!("ipfs://{}", owner)),
        extension: vec![1, 2, 3],
    }
}

fn block(height: u64, time: u64) -> BlockInfo {
    BlockInfo { height, time }
}

fn ids(page: &[(String, TokenInfo)]) -> Vec<String> {
    page.iter().map(|(id, _)| id.clone()).collect()
}

#[test]
fn mint_transfer_burn_scenario() {
    let mut registry = Cw721Contract::new();
    let mut minted = record("alice");
    minted.approvals.push(Approval { spender: "carol".to_string(), expires: Expiration::Never });
    assert_eq!(registry.mint("1", minted.clone()), Ok(1));
    assert_eq!(registry.token_count(), 1);
    assert_eq!(registry.list_by_owner("alice", None, 10), vec![("1".to_string(), minted.clone())]);

    assert_eq!(registry.update_owner("1", "bob"), Ok(()));
    assert!(registry.list_by_owner("alice", None, 10).is_empty());
    let mut moved = minted.clone();
    moved.owner = "bob".to_string();
    moved.approvals = vec![];
    assert_eq!(registry.list_by_owner("bob", None, 10), vec![("1".to_string(), moved.clone())]);
    assert_eq!(registry.load("1"), Ok(moved));

    assert_eq!(registry.burn("1"), Ok(0));
    assert_eq!(registry.token_count(), 0);
    assert_eq!(registry.load("1"), Err(RegistryError::NotFound));
    assert!(registry.list_by_owner("bob", None, 10).is_empty());
}

#[test]
fn operator_grant_lapses_at_its_time() {
    let mut registry = Cw721Contract::new();
    registry.grant("alice", "oscar", Expiration::AtTime(1000));
    assert!(registry.is_valid("alice", "oscar", &block(5, 999)));
    assert!(!registry.is_valid("alice", "oscar", &block(5, 1000)));
    assert!(!registry.is_valid("alice", "oscar", &block(5, 1001)));
}

#[test]
fn operator_grant_is_keyed_by_granter_and_operator() {
    let mut registry = Cw721Contract::new();
    registry.grant("alice", "oscar", Expiration::Never);
    assert!(registry.is_valid("alice", "oscar", &block(1, 1)));
    assert!(!registry.is_valid("oscar", "alice", &block(1, 1)));
    assert!(!registry.is_valid("alice", "bob", &block(1, 1)));
    assert!(!registry.is_valid("bob", "oscar", &block(1, 1)));
}

#[test]
fn later_grant_overwrites_earlier() {
    let mut registry = Cw721Contract::new();
    registry.grant("alice", "oscar", Expiration::AtHeight(10));
    registry.grant("alice", "peggy", Expiration::AtHeight(10));
    assert!(!registry.is_valid("alice", "oscar", &block(10, 0)));
    registry.grant("alice", "oscar", Expiration::AtHeight(20));
    assert!(registry.is_valid("alice", "oscar", &block(10, 0)));
    assert!(registry.is_valid("alice", "oscar", &block(19, 0)));
    assert!(!registry.is_valid("alice", "oscar", &block(20, 0)));
    assert!(!registry.is_valid("alice", "peggy", &block(10, 0)));
    assert!(registry.is_valid("alice", "peggy", &block(9, 0)));
}

#[test]
fn revoking_a_grant_is_idempotent() {
    let mut registry = Cw721Contract::new();
    registry.revoke("alice", "oscar");
    registry.grant("alice", "oscar", Expiration::Never);
    registry.grant("alice", "peggy", Expiration::Never);
    registry.revoke("alice", "oscar");
    assert!(!registry.is_valid("alice", "oscar", &block(1, 1)));
    assert!(registry.is_valid("alice", "peggy", &block(1, 1)));
    registry.revoke("alice", "oscar");
    assert!(!registry.is_valid("alice", "oscar", &block(1, 1)));
    assert!(registry.is_valid("alice", "peggy", &block(1, 1)));
}

#[test]
fn insert_refuses_a_taken_identifier() {
    let mut registry = Cw721Contract::new();
    assert_eq!(registry.insert("7", record("alice")), Ok(()));
    assert_eq!(registry.insert("7", record("bob")), Err(RegistryError::AlreadyExists));
    assert_eq!(registry.load("7"), Ok(record("alice")));
    assert_eq!(registry.mint("7", record("bob")), Err(RegistryError::AlreadyExists));
    assert_eq!(registry.token_count(), 0);
}

#[test]
fn absent_identifier_is_not_found() {
    let mut registry = Cw721Contract::default();
    assert_eq!(registry.load("x"), Err(RegistryError::NotFound));
    assert_eq!(registry.update_owner("x", "bob"), Err(RegistryError::NotFound));
    assert_eq!(registry.remove("x"), Err(RegistryError::NotFound));
    assert_eq!(registry.burn("x"), Err(RegistryError::NotFound));
    assert_eq!(registry.approve("x", "carol", Expiration::Never), Err(RegistryError::NotFound));
    assert_eq!(registry.revoke_approval("x", "carol"), Err(RegistryError::NotFound));
}

#[test]
fn decrement_at_zero_underflows_and_keeps_zero() {
    let mut registry = Cw721Contract::new();
    assert_eq!(registry.token_count(), 0);
    assert_eq!(registry.decrement_tokens(), Err(RegistryError::Underflow));
    assert_eq!(registry.token_count(), 0);
    assert_eq!(registry.increment_tokens(), 1);
    assert_eq!(registry.increment_tokens(), 2);
    assert_eq!(registry.decrement_tokens(), Ok(1));
    assert_eq!(registry.decrement_tokens(), Ok(0));
    assert_eq!(registry.decrement_tokens(), Err(RegistryError::Underflow));
    assert_eq!(registry.token_count(), 0);
}

#[test]
fn burn_with_an_empty_counter_changes_nothing() {
    let mut registry = Cw721Contract::new();
    assert_eq!(registry.insert("1", record("alice")), Ok(()));
    assert_eq!(registry.burn("1"), Err(RegistryError::Underflow));
    assert_eq!(registry.load("1"), Ok(record("alice")));
    assert_eq!(registry.token_count(), 0);
}

#[test]
fn counter_follows_mints_and_burns() {
    let mut registry = Cw721Contract::new();
    for (n, id) in ["c", "a", "d", "b"].iter().enumerate() {
        assert_eq!(registry.mint(id, record("alice")), Ok(n as u64 + 1));
    }
    assert_eq!(registry.token_count(), 4);
    assert_eq!(registry.burn("a"), Ok(3));
    assert_eq!(registry.burn("a"), Err(RegistryError::NotFound));
    assert_eq!(registry.token_count(), 3);
    assert_eq!(ids(&registry.list_by_owner("alice", None, 10)), vec!["b", "c", "d"]);
}

#[test]
fn listing_is_ascending_and_pages_by_start_and_limit() {
    let mut registry = Cw721Contract::new();
    for id in ["b", "10", "a", "2", "ab", ""] {
        assert_eq!(registry.insert(id, record("alice")), Ok(()));
    }
    assert_eq!(registry.insert("aa", record("bob")), Ok(()));
    assert_eq!(ids(&registry.list_by_owner("alice", None, 10)), vec!["", "10", "2", "a", "ab", "b"]);
    assert_eq!(ids(&registry.list_by_owner("alice", None, 2)), vec!["", "10"]);
    assert_eq!(ids(&registry.list_by_owner("alice", Some("10"), 2)), vec!["2", "a"]);
    assert_eq!(ids(&registry.list_by_owner("alice", Some("a"), 10)), vec!["ab", "b"]);
    assert_eq!(ids(&registry.list_by_owner("alice", Some("aa"), 10)), vec!["ab", "b"]);
    assert_eq!(ids(&registry.list_by_owner("alice", Some("b"), 10)), Vec::<String>::new());
    assert_eq!(ids(&registry.list_by_owner("alice", None, 0)), Vec::<String>::new());
    assert_eq!(ids(&registry.list_by_owner("bob", None, 10)), vec!["aa"]);
    assert_eq!(ids(&registry.list_by_owner("carol", None, 10)), Vec::<String>::new());
}

#[test]
fn index_follows_every_change_of_the_store() {
    let mut registry = Cw721Contract::new();
    assert_eq!(registry.insert("1", record("alice")), Ok(()));
    assert_eq!(registry.insert("2", record("alice")), Ok(()));
    assert_eq!(registry.insert("3", record("bob")), Ok(()));
    assert_eq!(registry.update_owner("2", "bob"), Ok(()));
    assert_eq!(registry.remove("3"), Ok(()));
    assert_eq!(ids(&registry.list_by_owner("alice", None, 10)), vec!["1"]);
    assert_eq!(ids(&registry.list_by_owner("bob", None, 10)), vec!["2"]);
    assert_eq!(registry.update_owner("1", "bob"), Ok(()));
    assert_eq!(ids(&registry.list_by_owner("alice", None, 10)), Vec::<String>::new());
    assert_eq!(ids(&registry.list_by_owner("bob", None, 10)), vec!["1", "2"]);
    let listed = registry.list_by_owner("bob", None, 10);
    for (id, info) in listed {
        assert_eq!(info.owner, "bob");
        assert_eq!(registry.load(&id), Ok(info));
    }
}

#[test]
fn transfer_clears_approvals_and_keeps_the_rest() {
    let mut registry = Cw721Contract::new();
    assert_eq!(registry.insert("1", record("alice")), Ok(()));
    assert_eq!(registry.approve("1", "carol", Expiration::Never), Ok(()));
    assert_eq!(registry.approve("1", "dave", Expiration::AtHeight(5)), Ok(()));
    assert_eq!(registry.load("1").unwrap().approvals.len(), 2);
    assert_eq!(registry.update_owner("1", "bob"), Ok(()));
    let after = registry.load("1").unwrap();
    assert!(after.approvals.is_empty());
    assert_eq!(after.owner, "bob");
    assert_eq!(after.token_uri, Some("ipfs://alice".to_string()));
    assert_eq!(after.extension, vec![1, 2, 3]);
}

#[test]
fn stored_approvals_change_without_touching_the_index() {
    let mut registry = Cw721Contract::new();
    assert_eq!(registry.insert("1", record("alice")), Ok(()));
    assert_eq!(registry.approve("1", "carol", Expiration::AtHeight(5)), Ok(()));
    assert_eq!(registry.approve("1", "carol", Expiration::AtHeight(9)), Ok(()));
    assert_eq!(
        registry.load("1").unwrap().approvals,
        vec![Approval { spender: "carol".to_string(), expires: Expiration::AtHeight(9) }]
    );
    assert_eq!(ids(&registry.list_by_owner("alice", None, 10)), vec!["1"]);
    assert_eq!(registry.revoke_approval("1", "carol"), Ok(()));
    assert_eq!(registry.revoke_approval("1", "carol"), Ok(()));
    assert_eq!(registry.load("1"), Ok(record("alice")));
    assert_eq!(ids(&registry.list_by_owner("alice", None, 10)), vec!["1"]);
}
