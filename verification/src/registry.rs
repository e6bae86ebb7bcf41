use crate::approval::{approved, other_than, ApprovalView, TokenInfo, TokenInfoView};
use crate::counter::TokenCounter;
use crate::error::RegistryError;
use crate::expiration::{BlockInfo, Expiration};
use crate::order::{compare_ids, id_before, lemma_before_irreflexive, lemma_before_transitive, Place};
use vstd::prelude::*;

verus! {

/// One record of the primary store, under its identifier.
struct TokenEntry {
    id: String,
    info: TokenInfo,
}

/// One entry of the index by owner: the owner holds the token `id`.
struct OwnerEntry {
    owner: String,
    id: String,
}

/// The secondary indexes of the token store. Only the registry writes them.
pub struct TokenIndexes {
    owner: Vec<OwnerEntry>,
}

/// Blanket authority of `operator` over the tokens of `granter`.
struct OperatorGrant {
    granter: String,
    operator: String,
    expires: Expiration,
}

/// The registry: token counter, operator grants, and the token store with
/// its index by owner.
pub struct Cw721Contract {
    token_count: TokenCounter,
    operators: Vec<OperatorGrant>,
    tokens: Vec<TokenEntry>,
    indexes: TokenIndexes,
    records: Ghost<Map<Seq<char>, TokenInfoView>>,
    grants: Ghost<Map<(Seq<char>, Seq<char>), Expiration>>,
}

/// The identifiers stand in strictly ascending order.
spec fn ids_ascend(tokens: Seq<TokenEntry>) -> bool {
    forall|i: int, j: int| 0 <= i < j < tokens.len() ==> id_before(tokens[i].id@, tokens[j].id@)
}

/// The index holds, place for place, the owner and identifier of each record.
spec fn index_mirrors(index: Seq<OwnerEntry>, tokens: Seq<TokenEntry>) -> bool {
    &&& index.len() == tokens.len()
    &&& forall|i: int|
        0 <= i < tokens.len() ==> (#[trigger] index[i]).id@ == tokens[i].id@ && index[i].owner@
            == tokens[i].info@.owner
}

/// The map holds exactly the records of the sequence.
spec fn records_model(tokens: Seq<TokenEntry>, records: Map<Seq<char>, TokenInfoView>) -> bool {
    &&& forall|i: int|
        0 <= i < tokens.len() ==> records.contains_key((#[trigger] tokens[i]).id@)
            && records[tokens[i].id@] == tokens[i].info@
    &&& forall|k: Seq<char>| #[trigger]
        records.contains_key(k) ==> exists|i: int|
            0 <= i < tokens.len() && (#[trigger] tokens[i]).id@ == k
    &&& records.dom().finite()
    &&& records.dom().len() == tokens.len()
}

/// The pair that a grant is kept under.
spec fn grant_key(grant: OperatorGrant) -> (Seq<char>, Seq<char>) {
    (grant.granter@, grant.operator@)
}

/// The map holds exactly the grants of the sequence, each pair once.
spec fn grants_model(
    operators: Seq<OperatorGrant>,
    grants: Map<(Seq<char>, Seq<char>), Expiration>,
) -> bool {
    &&& forall|i: int, j: int|
        0 <= i < j < operators.len() ==> grant_key(operators[i]) != grant_key(operators[j])
    &&& forall|i: int|
        0 <= i < operators.len() ==> grants.contains_key(grant_key(#[trigger] operators[i]))
            && grants[grant_key(operators[i])] == operators[i].expires
    &&& forall|k: (Seq<char>, Seq<char>)| #[trigger]
        grants.contains_key(k) ==> exists|i: int|
            0 <= i < operators.len() && grant_key(#[trigger] operators[i]) == k
}

/// The identifier `id` belongs to the listing asked for: `owner` holds it
/// and it comes strictly after `start_after`, where one is given.
pub open spec fn listed(
    records: Map<Seq<char>, TokenInfoView>,
    owner: Seq<char>,
    start_after: Option<Seq<char>>,
    id: Seq<char>,
) -> bool {
    &&& records.contains_key(id)
    &&& records[id].owner == owner
    &&& match start_after {
        Some(start) => id_before(start, id),
        None => true,
    }
}

/// `page` is the listing of `owner`'s tokens after `start_after`, cut at
/// `limit`: the least identifiers that belong to it, in ascending order,
/// each with its record.
pub open spec fn is_listing(
    records: Map<Seq<char>, TokenInfoView>,
    owner: Seq<char>,
    start_after: Option<Seq<char>>,
    limit: nat,
    page: Seq<(Seq<char>, TokenInfoView)>,
) -> bool {
    &&& page.len() <= limit
    &&& forall|k: int|
        0 <= k < page.len() ==> listed(records, owner, start_after, (#[trigger] page[k]).0)
            && page[k].1 == records[page[k].0]
    &&& forall|a: int, b: int| 0 <= a < b < page.len() ==> id_before(page[a].0, page[b].0)
    &&& forall|id: Seq<char>| #[trigger]
        listed(records, owner, start_after, id) ==> (exists|k: int|
            0 <= k < page.len() && (#[trigger] page[k]).0 == id) || (page.len() == limit
            && forall|k: int| 0 <= k < page.len() ==> id_before((#[trigger] page[k]).0, id))
}

/// The page as mathematical values.
pub open spec fn page_view(page: Seq<(String, TokenInfo)>) -> Seq<(Seq<char>, TokenInfoView)> {
    Seq::new(page.len(), |i: int| (page[i].0@, page[i].1@))
}

/// The record `before` with another list of approvals, the rest as it was.
pub open spec fn with_approvals(before: TokenInfoView, approvals: Seq<ApprovalView>) -> TokenInfoView {
    TokenInfoView {
        owner: before.owner,
        approvals,
        token_uri: before.token_uri,
        extension: before.extension,
    }
}

/// The record `before` after a change of owner: the new owner, no
/// approvals, the rest as it was.
pub open spec fn transferred(before: TokenInfoView, new_owner: Seq<char>) -> TokenInfoView {
    TokenInfoView {
        owner: new_owner,
        approvals: Seq::empty(),
        token_uri: before.token_uri,
        extension: before.extension,
    }
}

impl Cw721Contract {
    /// The internal invariant: identifiers ascend, the index mirrors the
    /// store, and the models describe what is held.
    pub closed spec fn wf(&self) -> bool {
        &&& ids_ascend(self.tokens@)
        &&& index_mirrors(self.indexes.owner@, self.tokens@)
        &&& records_model(self.tokens@, self.records@)
        &&& grants_model(self.operators@, self.grants@)
    }

    /// The primary store: each live identifier with its record.
    pub closed spec fn records(&self) -> Map<Seq<char>, TokenInfoView> {
        self.records@
    }

    /// The entries of the index by owner, as pairs of owner and identifier.
    pub closed spec fn owner_index(&self) -> Set<(Seq<char>, Seq<char>)> {
        Set::new(
            |p: (Seq<char>, Seq<char>)|
                exists|i: int|
                    0 <= i < self.indexes.owner@.len() && (#[trigger] self.indexes.owner@[i]).owner@
                        == p.0 && self.indexes.owner@[i].id@ == p.1,
        )
    }

    /// The operator grants: each pair of granter and operator with its bound.
    pub closed spec fn grants(&self) -> Map<(Seq<char>, Seq<char>), Expiration> {
        self.grants@
    }

    /// The token counter.
    pub closed spec fn counter(&self) -> TokenCounter {
        self.token_count
    }

    /// The count that the counter stands for.
    pub open spec fn count(&self) -> nat {
        self.counter().count()
    }

    /// The counter equals the number of live records.
    pub open spec fn counter_consistent(&self) -> bool {
        self.count() == self.records().len()
    }

    /// An empty registry: no token, no grant, a counter never written.
    pub fn new() -> (registry: Cw721Contract)
        ensures
            registry.wf(),
            registry.records() == Map::<Seq<char>, TokenInfoView>::empty(),
            registry.grants() == Map::<(Seq<char>, Seq<char>), Expiration>::empty(),
            registry.counter().cell() == None::<u64>,
            registry.counter_consistent(),
    {
        Cw721Contract {
            token_count: TokenCounter::new(),
            operators: Vec::new(),
            tokens: Vec::new(),
            indexes: TokenIndexes { owner: Vec::new() },
            records: Ghost(Map::empty()),
            grants: Ghost(Map::empty()),
        }
    }

    /// Puts the counter as it was read from storage in the place of the
    /// registry's own.
    pub fn restore_counter(&mut self, counter: TokenCounter)
        requires
            old(self).wf(),
        ensures
            final(self).wf(),
            final(self).counter() == counter,
            final(self).records() == old(self).records(),
            final(self).owner_index() == old(self).owner_index(),
            final(self).grants() == old(self).grants(),
    {
        self.token_count = counter;
    }

    /// The number of live tokens as counted; zero where the counter was
    /// never written.
    pub fn token_count(&self) -> (count: u64)
        ensures
            count == self.count(),
    {
        self.token_count.token_count()
    }

    /// Counts one token more and returns the new count.
    pub fn increment_tokens(&mut self) -> (count: u64)
        requires
            old(self).wf(),
            old(self).count() < u64::MAX,
        ensures
            final(self).wf(),
            count == old(self).count() + 1,
            final(self).counter().cell() == Some(count),
            final(self).records() == old(self).records(),
            final(self).grants() == old(self).grants(),
    {
        self.token_count.increment_tokens()
    }

    /// Counts one token less and returns the new count. A counter at zero
    /// stays as it is.
    pub fn decrement_tokens(&mut self) -> (outcome: Result<u64, RegistryError>)
        requires
            old(self).wf(),
        ensures
            final(self).wf(),
            old(self).count() == 0 ==> outcome == Err::<u64, RegistryError>(RegistryError::Underflow)
                && final(self).counter() == old(self).counter(),
            old(self).count() > 0 ==> outcome == Ok::<u64, RegistryError>(
                (old(self).count() - 1) as u64,
            ) && final(self).counter().cell() == Some((old(self).count() - 1) as u64),
            final(self).records() == old(self).records(),
            final(self).grants() == old(self).grants(),
    {
        self.token_count.decrement_tokens()
    }

    /// Where `id` stands in the store, or where it would be put.
    fn locate(&self, id: &str) -> (found: (usize, bool))
        requires
            self.wf(),
        ensures
            found.0 <= self.tokens@.len(),
            found.1 == self.records@.contains_key(id@),
            found.1 ==> found.0 < self.tokens@.len() && self.tokens@[found.0 as int].id@ == id@,
            forall|j: int| 0 <= j < found.0 ==> id_before(#[trigger] self.tokens@[j].id@, id@),
            !found.1 ==> forall|j: int|
                found.0 <= j < self.tokens@.len() ==> id_before(id@, #[trigger] self.tokens@[j].id@),
    {
        let mut i: usize = 0;
        while i < self.tokens.len()
            invariant
                self.wf(),
                i <= self.tokens@.len(),
                forall|j: int| 0 <= j < i ==> id_before(#[trigger] self.tokens@[j].id@, id@),
            decreases self.tokens.len() - i,
        {
            match compare_ids(self.tokens[i].id.as_str(), id) {
                Place::Before => {
                    i = i + 1;
                },
                Place::Same => {
                    return (i, true);
                },
                Place::After => {
                    proof {
                        self.lemma_absent_from(i as int, id@);
                    }
                    return (i, false);
                },
            }
        }
        proof {
            self.lemma_absent_from(i as int, id@);
        }
        (i, false)
    }

    /// An identifier that falls between two neighbours of the store is not
    /// in it, and comes before all that follow.
    proof fn lemma_absent_from(&self, at: int, id: Seq<char>)
        requires
            self.wf(),
            0 <= at <= self.tokens@.len(),
            forall|j: int| 0 <= j < at ==> id_before(#[trigger] self.tokens@[j].id@, id),
            at < self.tokens@.len() ==> id_before(id, self.tokens@[at].id@),
        ensures
            !self.records@.contains_key(id),
            forall|j: int| at <= j < self.tokens@.len() ==> id_before(id, #[trigger] self.tokens@[j].id@),
    {
        assert forall|j: int| at <= j < self.tokens@.len() implies id_before(
            id,
            #[trigger] self.tokens@[j].id@,
        ) by {
            if at < j {
                lemma_before_transitive(id, self.tokens@[at].id@, self.tokens@[j].id@);
            }
        }
        if self.records@.contains_key(id) {
            let i = choose|i: int| 0 <= i < self.tokens@.len() && (#[trigger] self.tokens@[i]).id@ == id;
            if i < at {
                lemma_before_irreflexive(self.tokens@[i].id@, id);
            } else {
                lemma_before_irreflexive(id, self.tokens@[i].id@);
            }
        }
    }

    /// Puts a new record under `id`, with its index entry.
    pub fn insert(&mut self, id: &str, record: TokenInfo) -> (outcome: Result<(), RegistryError>)
        requires
            old(self).wf(),
        ensures
            final(self).wf(),
            old(self).records().contains_key(id@) ==> outcome == Err::<(), RegistryError>(
                RegistryError::AlreadyExists,
            ) && final(self).records() == old(self).records(),
            !old(self).records().contains_key(id@) ==> outcome == Ok::<(), RegistryError>(())
                && final(self).records() == old(self).records().insert(id@, record@)
                && final(self).owner_index() == old(self).owner_index().insert(
                (record@.owner, id@),
            ),
            old(self).records().contains_key(id@) ==> final(self).owner_index() == old(self).owner_index(),
            final(self).grants() == old(self).grants(),
            final(self).counter() == old(self).counter(),
    {
        let (at, found) = self.locate(id);
        if found {
            return Err(RegistryError::AlreadyExists);
        }
        let ghost before = self.tokens@;
        let ghost index_before = self.indexes.owner@;
        let entry = OwnerEntry { owner: record.owner.clone(), id: id.to_owned() };
        let ghost view = record@;
        self.indexes.owner.insert(at, entry);
        self.tokens.insert(at, TokenEntry { id: id.to_owned(), info: record });
        self.records = Ghost(self.records@.insert(id@, view));
        proof {
            let after = self.tokens@;
            assert forall|j: int| 0 <= j < after.len() implies (if j < at {
                after[j] == before[j]
            } else if j == at {
                after[j].id@ == id@ && after[j].info@ == view
            } else {
                after[j] == before[j - 1]
            }) by {}
            assert forall|j: int| 0 <= j < after.len() implies (if j < at {
                self.indexes.owner@[j] == index_before[j]
            } else if j == at {
                self.indexes.owner@[j].id@ == id@ && self.indexes.owner@[j].owner@ == view.owner
            } else {
                self.indexes.owner@[j] == index_before[j - 1]
            }) by {}
            assert forall|k: Seq<char>| #[trigger] self.records@.contains_key(k) implies exists|i: int|
                0 <= i < after.len() && (#[trigger] after[i]).id@ == k by {
                if k == id@ {
                    assert(after[at as int].id@ == k);
                } else {
                    let i = choose|i: int| 0 <= i < before.len() && (#[trigger] before[i]).id@ == k;
                    if i < at {
                        assert(after[i].id@ == k);
                    } else {
                        assert(after[i + 1].id@ == k);
                    }
                }
            }
            assert forall|i: int| 0 <= i < after.len() implies self.records@.contains_key(
                (#[trigger] after[i]).id@,
            ) && self.records@[after[i].id@] == after[i].info@ by {
                if i > at {
                    assert(before[i - 1].id@ != id@) by {
                        lemma_before_irreflexive(id@, before[i - 1].id@);
                    }
                } else if i < at {
                    assert(before[i].id@ != id@) by {
                        lemma_before_irreflexive(before[i].id@, id@);
                    }
                }
            }
            assert(ids_ascend(after));
            assert(index_mirrors(self.indexes.owner@, after));
            self.lemma_index_consistent();
            old(self).lemma_index_consistent();
            assert(self.owner_index() =~= old(self).owner_index().insert((view.owner, id@)));
        }
        Ok(())
    }

    /// The record kept under `id`.
    pub fn load(&self, id: &str) -> (outcome: Result<TokenInfo, RegistryError>)
        requires
            self.wf(),
        ensures
            match outcome {
                Ok(record) => self.records().contains_key(id@) && record@ == self.records()[id@],
                Err(e) => !self.records().contains_key(id@) && e == RegistryError::NotFound,
            },
    {
        let (at, found) = self.locate(id);
        if !found {
            return Err(RegistryError::NotFound);
        }
        Ok(self.tokens[at].info.duplicate())
    }

    /// Hands the token `id` to `new_owner`: the record gets the new owner
    /// and loses its approvals, and its index entry moves with it.
    pub fn update_owner(&mut self, id: &str, new_owner: &str) -> (outcome: Result<
        (),
        RegistryError,
    >)
        requires
            old(self).wf(),
        ensures
            final(self).wf(),
            !old(self).records().contains_key(id@) ==> outcome == Err::<(), RegistryError>(
                RegistryError::NotFound,
            ) && final(self).records() == old(self).records(),
            old(self).records().contains_key(id@) ==> outcome == Ok::<(), RegistryError>(())
                && final(self).records() == old(self).records().insert(
                id@,
                transferred(old(self).records()[id@], new_owner@),
            ) && final(self).owner_index() == old(self).owner_index().remove(
                (old(self).records()[id@].owner, id@),
            ).insert((new_owner@, id@)),
            !old(self).records().contains_key(id@) ==> final(self).owner_index() == old(self).owner_index(),
            final(self).grants() == old(self).grants(),
            final(self).counter() == old(self).counter(),
    {
        let (at, found) = self.locate(id);
        if !found {
            return Err(RegistryError::NotFound);
        }
        let ghost before = self.tokens@;
        let ghost index_before = self.indexes.owner@;
        let mut entry = self.tokens.remove(at);
        let mut place = self.indexes.owner.remove(at);
        entry.info.owner = new_owner.to_owned();
        entry.info.clear_approvals();
        place.owner = new_owner.to_owned();
        let ghost view = entry.info@;
        self.tokens.insert(at, entry);
        self.indexes.owner.insert(at, place);
        self.records = Ghost(self.records@.insert(id@, view));
        proof {
            let after = self.tokens@;
            assert(view == transferred(old(self).records()[id@], new_owner@));
            assert(after.len() == before.len());
            assert forall|j: int| 0 <= j < after.len() implies (if j == at {
                after[j].id@ == id@ && after[j].info@ == view
            } else {
                after[j] == before[j]
            }) by {}
            assert forall|j: int| 0 <= j < after.len() implies (if j == at {
                self.indexes.owner@[j].id@ == id@ && self.indexes.owner@[j].owner@ == view.owner
            } else {
                self.indexes.owner@[j] == index_before[j]
            }) by {}
            assert forall|k: Seq<char>| #[trigger] self.records@.contains_key(k) implies exists|i: int|
                0 <= i < after.len() && (#[trigger] after[i]).id@ == k by {
                if k == id@ {
                    assert(after[at as int].id@ == k);
                } else {
                    let i = choose|i: int| 0 <= i < before.len() && (#[trigger] before[i]).id@ == k;
                    assert(after[i].id@ == k);
                }
            }
            assert forall|i: int| 0 <= i < after.len() implies self.records@.contains_key(
                (#[trigger] after[i]).id@,
            ) && self.records@[after[i].id@] == after[i].info@ by {
                if i > at {
                    lemma_before_irreflexive(before[at as int].id@, before[i].id@);
                } else if i < at {
                    lemma_before_irreflexive(before[i].id@, before[at as int].id@);
                }
            }
            assert(self.records@.dom() =~= old(self).records@.dom());
            assert(ids_ascend(after)) by {
                assert forall|i: int, j: int| 0 <= i < j < after.len() implies id_before(
                    after[i].id@,
                    after[j].id@,
                ) by {
                    assert(id_before(before[i].id@, before[j].id@));
                }
            }
            assert(index_mirrors(self.indexes.owner@, after));
            self.lemma_index_consistent();
            old(self).lemma_index_consistent();
            assert(self.owner_index() =~= old(self).owner_index().remove(
                (old(self).records()[id@].owner, id@),
            ).insert((new_owner@, id@)));
        }
        Ok(())
    }

    /// Takes the record under `id` out of the store, with its index entry.
    pub fn remove(&mut self, id: &str) -> (outcome: Result<(), RegistryError>)
        requires
            old(self).wf(),
        ensures
            final(self).wf(),
            !old(self).records().contains_key(id@) ==> outcome == Err::<(), RegistryError>(
                RegistryError::NotFound,
            ) && final(self).records() == old(self).records(),
            old(self).records().contains_key(id@) ==> outcome == Ok::<(), RegistryError>(())
                && final(self).records() == old(self).records().remove(id@)
                && final(self).owner_index() == old(self).owner_index().remove(
                (old(self).records()[id@].owner, id@),
            ),
            !old(self).records().contains_key(id@) ==> final(self).owner_index() == old(self).owner_index(),
            final(self).grants() == old(self).grants(),
            final(self).counter() == old(self).counter(),
    {
        let (at, found) = self.locate(id);
        if !found {
            return Err(RegistryError::NotFound);
        }
        let ghost before = self.tokens@;
        let ghost index_before = self.indexes.owner@;
        let _ = self.tokens.remove(at);
        let _ = self.indexes.owner.remove(at);
        self.records = Ghost(self.records@.remove(id@));
        proof {
            let after = self.tokens@;
            assert forall|j: int| 0 <= j < after.len() implies (if j < at {
                after[j] == before[j] && self.indexes.owner@[j] == index_before[j]
            } else {
                after[j] == before[j + 1] && self.indexes.owner@[j] == index_before[j + 1]
            }) by {}
            assert forall|k: Seq<char>| #[trigger] self.records@.contains_key(k) implies exists|i: int|
                0 <= i < after.len() && (#[trigger] after[i]).id@ == k by {
                let i = choose|i: int| 0 <= i < before.len() && (#[trigger] before[i]).id@ == k;
                if i < at {
                    assert(after[i].id@ == k);
                } else {
                    assert(after[i - 1].id@ == k);
                }
            }
            assert forall|i: int| 0 <= i < after.len() implies self.records@.contains_key(
                (#[trigger] after[i]).id@,
            ) && self.records@[after[i].id@] == after[i].info@ by {
                if i >= at {
                    lemma_before_irreflexive(before[at as int].id@, before[i + 1].id@);
                } else {
                    lemma_before_irreflexive(before[i].id@, before[at as int].id@);
                }
            }
            assert(ids_ascend(after)) by {
                assert forall|i: int, j: int| 0 <= i < j < after.len() implies id_before(
                    after[i].id@,
                    after[j].id@,
                ) by {
                    let a = if i < at { i } else { i + 1 };
                    let b = if j < at { j } else { j + 1 };
                    assert(id_before(before[a].id@, before[b].id@));
                }
            }
            assert(index_mirrors(self.indexes.owner@, after));
            self.lemma_index_consistent();
            old(self).lemma_index_consistent();
            assert(self.owner_index() =~= old(self).owner_index().remove(
                (old(self).records()[id@].owner, id@),
            ));
        }
        Ok(())
    }

    /// Puts `info` in the place of the record at `at`, whose owner it keeps.
    fn put_back(&mut self, at: usize, info: TokenInfo)
        requires
            old(self).wf(),
            at < old(self).tokens@.len(),
            info@.owner == old(self).tokens@[at as int].info@.owner,
        ensures
            final(self).wf(),
            final(self).records() == old(self).records().insert(
                old(self).tokens@[at as int].id@,
                info@,
            ),
            final(self).owner_index() == old(self).owner_index(),
            final(self).grants() == old(self).grants(),
            final(self).counter() == old(self).counter(),
    {
        let ghost before = self.tokens@;
        let ghost view = info@;
        let entry = self.tokens.remove(at);
        let ghost id = entry.id@;
        self.tokens.insert(at, TokenEntry { id: entry.id, info });
        self.records = Ghost(self.records@.insert(id, view));
        proof {
            let after = self.tokens@;
            assert(after.len() == before.len());
            assert forall|j: int| 0 <= j < after.len() implies (if j == at {
                after[j].id@ == id && after[j].info@ == view
            } else {
                after[j] == before[j]
            }) by {}
            assert forall|k: Seq<char>| #[trigger] self.records@.contains_key(k) implies exists|i: int|
                0 <= i < after.len() && (#[trigger] after[i]).id@ == k by {
                if k == id {
                    assert(after[at as int].id@ == k);
                } else {
                    let i = choose|i: int| 0 <= i < before.len() && (#[trigger] before[i]).id@ == k;
                    assert(after[i].id@ == k);
                }
            }
            assert forall|i: int| 0 <= i < after.len() implies self.records@.contains_key(
                (#[trigger] after[i]).id@,
            ) && self.records@[after[i].id@] == after[i].info@ by {
                if i > at {
                    lemma_before_irreflexive(before[at as int].id@, before[i].id@);
                } else if i < at {
                    lemma_before_irreflexive(before[i].id@, before[at as int].id@);
                }
            }
            assert(self.records@.dom() =~= old(self).records@.dom());
            assert(ids_ascend(after)) by {
                assert forall|i: int, j: int| 0 <= i < j < after.len() implies id_before(
                    after[i].id@,
                    after[j].id@,
                ) by {
                    assert(id_before(before[i].id@, before[j].id@));
                }
            }
            assert(index_mirrors(self.indexes.owner@, after));
        }
    }

    /// Approves `spender` on the token `id` until `expires`. The index by
    /// owner is not touched.
    pub fn approve(&mut self, id: &str, spender: &str, expires: Expiration) -> (outcome: Result<
        (),
        RegistryError,
    >)
        requires
            old(self).wf(),
        ensures
            final(self).wf(),
            !old(self).records().contains_key(id@) ==> outcome == Err::<(), RegistryError>(
                RegistryError::NotFound,
            ) && final(self).records() == old(self).records(),
            old(self).records().contains_key(id@) ==> outcome == Ok::<(), RegistryError>(())
                && final(self).records() == old(self).records().insert(
                id@,
                with_approvals(
                    old(self).records()[id@],
                    approved(old(self).records()[id@].approvals, spender@, expires),
                ),
            ),
            final(self).owner_index() == old(self).owner_index(),
            final(self).grants() == old(self).grants(),
            final(self).counter() == old(self).counter(),
    {
        let (at, found) = self.locate(id);
        if !found {
            return Err(RegistryError::NotFound);
        }
        let mut info = self.tokens[at].info.duplicate();
        info.approve(spender, expires);
        self.put_back(at, info);
        Ok(())
    }

    /// Withdraws what `spender` was approved for on the token `id`, if
    /// anything. The index by owner is not touched.
    pub fn revoke_approval(&mut self, id: &str, spender: &str) -> (outcome: Result<
        (),
        RegistryError,
    >)
        requires
            old(self).wf(),
        ensures
            final(self).wf(),
            !old(self).records().contains_key(id@) ==> outcome == Err::<(), RegistryError>(
                RegistryError::NotFound,
            ) && final(self).records() == old(self).records(),
            old(self).records().contains_key(id@) ==> outcome == Ok::<(), RegistryError>(())
                && final(self).records() == old(self).records().insert(
                id@,
                with_approvals(
                    old(self).records()[id@],
                    old(self).records()[id@].approvals.filter(other_than(spender@)),
                ),
            ),
            final(self).owner_index() == old(self).owner_index(),
            final(self).grants() == old(self).grants(),
            final(self).counter() == old(self).counter(),
    {
        let (at, found) = self.locate(id);
        if !found {
            return Err(RegistryError::NotFound);
        }
        let mut info = self.tokens[at].info.duplicate();
        info.revoke(spender);
        self.put_back(at, info);
        Ok(())
    }

    /// The record at place `at` belongs to the listing asked for.
    spec fn holds_at(&self, at: int, owner: Seq<char>, start_after: Option<Seq<char>>) -> bool {
        &&& self.tokens@[at].info@.owner == owner
        &&& match start_after {
            Some(start) => id_before(start, self.tokens@[at].id@),
            None => true,
        }
    }

    /// The tokens of `owner` in ascending order of identifier, from the
    /// first one after `start_after`, `limit` of them at most.
    pub fn list_by_owner(&self, owner: &str, start_after: Option<&str>, limit: u32) -> (page: Vec<
        (String, TokenInfo),
    >)
        requires
            self.wf(),
        ensures
            is_listing(
                self.records(),
                owner@,
                start_view(start_after),
                limit as nat,
                page_view(page@),
            ),
    {
        let who: String = owner.to_owned();
        let ghost start = start_view(start_after);
        let mut page: Vec<(String, TokenInfo)> = Vec::new();
        let ghost mut picked: Seq<int> = Seq::empty();
        let mut i: usize = 0;
        while i < self.tokens.len() && page.len() < limit as usize
            invariant
                self.wf(),
                who@ == owner@,
                start == start_view(start_after),
                i <= self.tokens@.len(),
                page@.len() <= limit,
                page@.len() == picked.len(),
                forall|k: int|
                    0 <= k < picked.len() ==> 0 <= (#[trigger] picked[k]) < i && self.holds_at(
                        picked[k],
                        owner@,
                        start,
                    ) && page@[k].0@ == self.tokens@[picked[k]].id@ && page@[k].1@
                        == self.tokens@[picked[k]].info@,
                forall|a: int, b: int| 0 <= a < b < picked.len() ==> picked[a] < picked[b],
                forall|j: int|
                    0 <= j < i && #[trigger] self.holds_at(j, owner@, start) ==> exists|k: int|
                        0 <= k < picked.len() && #[trigger] picked[k] == j,
            decreases self.tokens.len() - i,
        {
            let entry = &self.indexes.owner[i];
            let mut wanted: bool = entry.owner == who;
            if wanted {
                match start_after {
                    Some(first) => {
                        let place = compare_ids(first, entry.id.as_str());
                        wanted = place == Place::Before;
                    },
                    None => {},
                }
            }
            if wanted {
                let ghost earlier = picked;
                page.push((entry.id.clone(), self.tokens[i].info.duplicate()));
                proof {
                    picked = picked.push(i as int);
                    assert forall|j: int|
                        0 <= j < i + 1 && #[trigger] self.holds_at(
                            j,
                            owner@,
                            start,
                        ) implies exists|k: int|
                        0 <= k < picked.len() && #[trigger] picked[k] == j by {
                        if j < i {
                            let k = choose|k: int| 0 <= k < earlier.len() && #[trigger] earlier[k] == j;
                            assert(picked[k] == j);
                        } else {
                            assert(picked[earlier.len() as int] == j);
                        }
                    }
                }
            }
            i = i + 1;
        }
        proof {
            let records = self.records();
            let out = page_view(page@);
            assert forall|k: int| 0 <= k < out.len() implies listed(
                records,
                owner@,
                start,
                (#[trigger] out[k]).0,
            ) && out[k].1 == records[out[k].0] by {
                assert(self.holds_at(picked[k], owner@, start));
                assert(records.contains_key(self.tokens@[picked[k]].id@));
            }
            assert forall|a: int, b: int| 0 <= a < b < out.len() implies id_before(
                out[a].0,
                out[b].0,
            ) by {
                assert(picked[a] < picked[b]);
            }
            assert forall|id: Seq<char>| #[trigger]
                listed(records, owner@, start, id) implies (exists|k: int|
                0 <= k < out.len() && (#[trigger] out[k]).0 == id) || (out.len() == limit
                && forall|k: int| 0 <= k < out.len() ==> id_before((#[trigger] out[k]).0, id)) by {
                let j = choose|j: int| 0 <= j < self.tokens@.len() && (#[trigger] self.tokens@[j]).id@ == id;
                assert(self.holds_at(j, owner@, start));
                if j < i {
                    let k = choose|k: int| 0 <= k < picked.len() && #[trigger] picked[k] == j;
                    assert(out[k].0 == id);
                } else {
                    assert forall|k: int| 0 <= k < out.len() implies id_before(
                        (#[trigger] out[k]).0,
                        id,
                    ) by {
                        assert(picked[k] < i);
                    }
                }
            }
        }
        page
    }

    /// Creates the token `id` and counts it.
    pub fn mint(&mut self, id: &str, record: TokenInfo) -> (outcome: Result<u64, RegistryError>)
        requires
            old(self).wf(),
            old(self).count() < u64::MAX,
        ensures
            final(self).wf(),
            old(self).records().contains_key(id@) ==> outcome == Err::<u64, RegistryError>(
                RegistryError::AlreadyExists,
            ) && final(self).records() == old(self).records() && final(self).counter() == old(self).counter(),
            !old(self).records().contains_key(id@) ==> outcome == Ok::<u64, RegistryError>(
                (old(self).count() + 1) as u64,
            ) && final(self).records() == old(self).records().insert(id@, record@)
                && final(self).count() == old(self).count() + 1,
            final(self).grants() == old(self).grants(),
            old(self).counter_consistent() ==> final(self).counter_consistent(),
    {
        match self.insert(id, record) {
            Err(e) => Err(e),
            Ok(()) => Ok(self.increment_tokens()),
        }
    }

    /// Destroys the token `id` and takes it off the count.
    pub fn burn(&mut self, id: &str) -> (outcome: Result<u64, RegistryError>)
        requires
            old(self).wf(),
        ensures
            final(self).wf(),
            !old(self).records().contains_key(id@) ==> outcome == Err::<u64, RegistryError>(
                RegistryError::NotFound,
            ),
            old(self).records().contains_key(id@) && old(self).count() == 0 ==> outcome == Err::<
                u64,
                RegistryError,
            >(RegistryError::Underflow),
            outcome.is_err() ==> final(self).records() == old(self).records() && final(self).counter() == old(self).counter(),
            old(self).records().contains_key(id@) && old(self).count() > 0 ==> outcome == Ok::<
                u64,
                RegistryError,
            >((old(self).count() - 1) as u64) && final(self).records() == old(self).records().remove(
                id@,
            ) && final(self).count() == old(self).count() - 1,
            final(self).grants() == old(self).grants(),
            old(self).counter_consistent() ==> final(self).counter_consistent(),
    {
        let (_, found) = self.locate(id);
        if !found {
            return Err(RegistryError::NotFound);
        }
        if self.token_count() == 0 {
            return Err(RegistryError::Underflow);
        }
        let _ = self.remove(id);
        self.decrement_tokens()
    }

    /// Where the grant of `granter` to `operator` stands, if there is one.
    fn find_grant(&self, granter: &String, operator: &String) -> (found: Option<usize>)
        requires
            self.wf(),
        ensures
            match found {
                Some(at) => at < self.operators@.len() && grant_key(self.operators@[at as int]) == (
                    granter@,
                    operator@,
                ),
                None => !self.grants@.contains_key((granter@, operator@)),
            },
    {
        let mut i: usize = 0;
        while i < self.operators.len()
            invariant
                self.wf(),
                i <= self.operators@.len(),
                forall|j: int|
                    0 <= j < i ==> grant_key(#[trigger] self.operators@[j]) != (granter@, operator@),
            decreases self.operators.len() - i,
        {
            if self.operators[i].granter == *granter && self.operators[i].operator == *operator {
                return Some(i);
            }
            i = i + 1;
        }
        None
    }

    /// Gives `operator` authority over all tokens of `granter` until
    /// `expires`, in place of any earlier grant to that operator.
    pub fn grant(&mut self, granter: &str, operator: &str, expires: Expiration)
        requires
            old(self).wf(),
        ensures
            final(self).wf(),
            final(self).grants() == old(self).grants().insert((granter@, operator@), expires),
            final(self).records() == old(self).records(),
            final(self).counter() == old(self).counter(),
    {
        let granter: String = granter.to_owned();
        let operator: String = operator.to_owned();
        let ghost before = self.operators@;
        let ghost key = (granter@, operator@);
        let ghost mut slot: int = 0;
        match self.find_grant(&granter, &operator) {
            Some(at) => {
                let _ = self.operators.remove(at);
                self.operators.insert(at, OperatorGrant { granter, operator, expires });
                proof {
                    slot = at as int;
                    let after = self.operators@;
                    assert forall|j: int| 0 <= j < after.len() implies grant_key(
                        #[trigger] after[j],
                    ) == grant_key(before[j]) && (j != at ==> after[j] == before[j]) && (j == at
                        ==> after[j].expires == expires) by {}
                }
            },
            None => {
                self.operators.push(OperatorGrant { granter, operator, expires });
                proof {
                    slot = before.len() as int;
                    let after = self.operators@;
                    assert forall|j: int| 0 <= j < after.len() implies (if j < before.len() {
                        #[trigger] after[j] == before[j]
                    } else {
                        grant_key(after[j]) == key && after[j].expires == expires
                    }) by {}
                }
            },
        }
        self.grants = Ghost(self.grants@.insert(key, expires));
        proof {
            let after = self.operators@;
            assert forall|k: (Seq<char>, Seq<char>)| #[trigger]
                self.grants@.contains_key(k) implies exists|i: int|
                0 <= i < after.len() && grant_key(#[trigger] after[i]) == k by {
                if k == key {
                    assert(grant_key(after[slot]) == k);
                } else {
                    let i = choose|i: int|
                        0 <= i < before.len() && grant_key(#[trigger] before[i]) == k;
                    assert(grant_key(after[i]) == k);
                }
            }
        }
    }

    /// Withdraws the grant of `granter` to `operator`, if there is one.
    pub fn revoke(&mut self, granter: &str, operator: &str)
        requires
            old(self).wf(),
        ensures
            final(self).wf(),
            final(self).grants() == old(self).grants().remove((granter@, operator@)),
            final(self).records() == old(self).records(),
            final(self).counter() == old(self).counter(),
    {
        let granter: String = granter.to_owned();
        let operator: String = operator.to_owned();
        let ghost before = self.operators@;
        let ghost key = (granter@, operator@);
        match self.find_grant(&granter, &operator) {
            Some(at) => {
                let _ = self.operators.remove(at);
                self.grants = Ghost(self.grants@.remove(key));
                proof {
                    let after = self.operators@;
                    assert forall|j: int| 0 <= j < after.len() implies #[trigger] after[j] == (if j
                        < at {
                        before[j]
                    } else {
                        before[j + 1]
                    }) by {}
                    assert forall|k: (Seq<char>, Seq<char>)| #[trigger]
                        self.grants@.contains_key(k) implies exists|i: int|
                        0 <= i < after.len() && grant_key(#[trigger] after[i]) == k by {
                        let i = choose|i: int|
                            0 <= i < before.len() && grant_key(#[trigger] before[i]) == k;
                        if i < at {
                            assert(grant_key(after[i]) == k);
                        } else {
                            assert(grant_key(after[i - 1]) == k);
                        }
                    }
                }
            },
            None => {
                assert(self.grants@.remove(key) =~= self.grants@);
            },
        }
    }

    /// Whether `operator` holds authority over the tokens of `granter` that
    /// has not lapsed at `block`.
    pub fn is_valid(&self, granter: &str, operator: &str, block: &BlockInfo) -> (valid: bool)
        requires
            self.wf(),
        ensures
            valid == (self.grants().contains_key((granter@, operator@)) && !self.grants()[(
                granter@,
                operator@,
            )].expired_at(*block)),
    {
        let granter: String = granter.to_owned();
        let operator: String = operator.to_owned();
        match self.find_grant(&granter, &operator) {
            Some(at) => !self.operators[at].expires.is_expired(block),
            None => false,
        }
    }

    /// The store holds finitely many records.
    pub proof fn lemma_records_finite(&self)
        requires
            self.wf(),
        ensures
            self.records().dom().finite(),
    {
    }

    /// The index by owner holds exactly one entry for each live record,
    /// under that record's owner, and no other entry.
    pub proof fn lemma_index_consistent(&self)
        requires
            self.wf(),
        ensures
            self.owner_index() == Set::new(
                |p: (Seq<char>, Seq<char>)|
                    self.records().contains_key(p.1) && self.records()[p.1].owner == p.0,
            ),
    {
        let derived = Set::new(
            |p: (Seq<char>, Seq<char>)|
                self.records().contains_key(p.1) && self.records()[p.1].owner == p.0,
        );
        assert forall|p: (Seq<char>, Seq<char>)| self.owner_index().contains(p) implies derived.contains(
            p,
        ) by {
            let i = choose|i: int|
                0 <= i < self.indexes.owner@.len() && (#[trigger] self.indexes.owner@[i]).owner@
                    == p.0 && self.indexes.owner@[i].id@ == p.1;
            assert(self.records@.contains_key(self.tokens@[i].id@));
        }
        assert forall|p: (Seq<char>, Seq<char>)| derived.contains(p) implies self.owner_index().contains(
            p,
        ) by {
            let i = choose|i: int| 0 <= i < self.tokens@.len() && (#[trigger] self.tokens@[i]).id@ == p.1;
            assert(self.indexes.owner@[i].id@ == p.1);
        }
        assert(self.owner_index() =~= derived);
    }
}

/// The start of a listing as a mathematical value.
pub open spec fn start_view(start_after: Option<&str>) -> Option<Seq<char>> {
    match start_after {
        Some(start) => Some(start@),
        None => None,
    }
}

impl Default for Cw721Contract {
    fn default() -> (registry: Cw721Contract)
        ensures
            registry.wf(),
            registry.records() == Map::<Seq<char>, TokenInfoView>::empty(),
            registry.grants() == Map::<(Seq<char>, Seq<char>), Expiration>::empty(),
            registry.counter().cell() == None::<u64>,
    {
        Cw721Contract::new()
    }
}

} // verus!
