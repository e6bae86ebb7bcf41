use crate::expiration::{BlockInfo, Expiration};
use vstd::prelude::*;

verus! {

/// What an approval is, as a mathematical value.
pub struct ApprovalView {
    pub spender: Seq<char>,
    pub expires: Expiration,
}

/// A right to transfer one token, delegated to one account.
#[derive(Clone, Debug, PartialEq, Eq)]
pub struct Approval {
    /// Account that can transfer the token.
    pub spender: String,
    /// When the right lapses.
    pub expires: Expiration,
}

impl View for Approval {
    type V = ApprovalView;

    open spec fn view(&self) -> ApprovalView {
        ApprovalView { spender: self.spender@, expires: self.expires }
    }
}

impl Approval {
    /// Whether the approval has lapsed at `block`.
    pub fn is_expired(&self, block: &BlockInfo) -> (expired: bool)
        ensures
            expired == self.expires.expired_at(*block),
    {
        self.expires.is_expired(block)
    }

    /// A second approval with the same spender and bound.
    pub fn duplicate(&self) -> (copy: Approval)
        ensures
            copy == *self,
    {
        Approval { spender: self.spender.clone(), expires: self.expires }
    }
}

/// The approvals of a list as mathematical values, in the list's order.
pub open spec fn views_of(list: Seq<Approval>) -> Seq<ApprovalView> {
    Seq::new(list.len(), |i: int| list[i]@)
}

/// Holds of the approvals that belong to another account than `spender`.
pub open spec fn other_than(spender: Seq<char>) -> spec_fn(ApprovalView) -> bool {
    |a: ApprovalView| a.spender != spender
}

/// No two approvals of the list name the same spender.
pub open spec fn unique_spenders(list: Seq<ApprovalView>) -> bool {
    forall|i: int, j: int| 0 <= i < j < list.len() ==> list[i].spender != list[j].spender
}

/// The list after `spender` was approved until `expires`: what it held for
/// other accounts, then the new approval.
pub open spec fn approved(list: Seq<ApprovalView>, spender: Seq<char>, expires: Expiration) -> Seq<
    ApprovalView,
> {
    list.filter(other_than(spender)).push(ApprovalView { spender, expires })
}

/// Some approval of the list names `spender` and has not lapsed at `block`.
pub open spec fn approved_at(list: Seq<ApprovalView>, spender: Seq<char>, block: BlockInfo) -> bool {
    exists|i: int|
        0 <= i < list.len() && (#[trigger] list[i]).spender == spender && !list[i].expires.expired_at(
            block,
        )
}

/// What a token record is, as a mathematical value.
pub struct TokenInfoView {
    pub owner: Seq<char>,
    pub approvals: Seq<ApprovalView>,
    pub token_uri: Option<Seq<char>>,
    pub extension: Seq<u8>,
}

/// The record kept for one token.
#[derive(Clone, Debug, PartialEq, Eq)]
pub struct TokenInfo {
    /// The owner of the token.
    pub owner: String,
    /// The approvals granted on this token, at most one for each spender.
    pub approvals: Vec<Approval>,
    /// Universal resource identifier of the token's metadata.
    pub token_uri: Option<String>,
    /// Payload of the caller, which the registry carries and never reads.
    pub extension: Vec<u8>,
}

impl View for TokenInfo {
    type V = TokenInfoView;

    open spec fn view(&self) -> TokenInfoView {
        TokenInfoView {
            owner: self.owner@,
            approvals: views_of(self.approvals@),
            token_uri: match self.token_uri {
                Some(uri) => Some(uri@),
                None => None,
            },
            extension: self.extension@,
        }
    }
}

/// Filtering a list that grew by one approval keeps or drops that approval.
proof fn lemma_filter_step(list: Seq<ApprovalView>, i: int, spender: Seq<char>)
    requires
        0 <= i < list.len(),
    ensures
        list.take(i + 1).filter(other_than(spender)) == if list[i].spender != spender {
            list.take(i).filter(other_than(spender)).push(list[i])
        } else {
            list.take(i).filter(other_than(spender))
        },
{
    reveal(Seq::filter);
    assert(list.take(i + 1).drop_last() =~= list.take(i));
}

impl TokenInfo {
    /// The record keeps at most one approval for each spender.
    pub open spec fn wf(&self) -> bool {
        unique_spenders(self@.approvals)
    }

    /// A second record with the same contents.
    pub fn duplicate(&self) -> (copy: TokenInfo)
        ensures
            copy@ == self@,
    {
        let mut approvals: Vec<Approval> = Vec::new();
        let mut i: usize = 0;
        while i < self.approvals.len()
            invariant
                i <= self.approvals.len(),
                approvals@ == self.approvals@.take(i as int),
            decreases self.approvals.len() - i,
        {
            approvals.push(self.approvals[i].duplicate());
            assert(approvals@ =~= self.approvals@.take(i + 1));
            i = i + 1;
        }
        assert(approvals@ =~= self.approvals@);
        let token_uri = match &self.token_uri {
            Some(uri) => Some(uri.clone()),
            None => None,
        };
        let mut extension: Vec<u8> = Vec::new();
        let mut k: usize = 0;
        while k < self.extension.len()
            invariant
                k <= self.extension.len(),
                extension@ == self.extension@.take(k as int),
            decreases self.extension.len() - k,
        {
            extension.push(self.extension[k]);
            assert(extension@ =~= self.extension@.take(k + 1));
            k = k + 1;
        }
        assert(extension@ =~= self.extension@);
        TokenInfo { owner: self.owner.clone(), approvals, token_uri, extension }
    }

    /// Drops what the list holds for `spender`, if anything.
    pub fn revoke(&mut self, spender: &str)
        ensures
            final(self)@.approvals == old(self)@.approvals.filter(other_than(spender@)),
            final(self)@.owner == old(self)@.owner,
            final(self)@.token_uri == old(self)@.token_uri,
            final(self)@.extension == old(self)@.extension,
            old(self).wf() ==> final(self).wf(),
    {
        let ghost before = views_of(self.approvals@);
        let who: String = spender.to_owned();
        let mut kept: Vec<Approval> = Vec::new();
        let mut i: usize = 0;
        while i < self.approvals.len()
            invariant
                i <= self.approvals.len(),
                *self == *old(self),
                before == views_of(self.approvals@),
                who@ == spender@,
                views_of(kept@) == before.take(i as int).filter(other_than(spender@)),
            decreases self.approvals.len() - i,
        {
            proof {
                lemma_filter_step(before, i as int, spender@);
            }
            if !(self.approvals[i].spender == who) {
                kept.push(self.approvals[i].duplicate());
                assert(views_of(kept@) =~= before.take(i as int).filter(other_than(spender@)).push(
                    before[i as int],
                ));
            }
            i = i + 1;
        }
        proof {
            assert(before.take(i as int) =~= before);
            if old(self).wf() {
                lemma_filter_keeps_unique(before, spender@);
            }
        }
        self.approvals = kept;
    }

    /// Approves `spender` until `expires`, in place of what the list held
    /// for that account.
    pub fn approve(&mut self, spender: &str, expires: Expiration)
        ensures
            final(self)@.approvals == approved(old(self)@.approvals, spender@, expires),
            final(self)@.owner == old(self)@.owner,
            final(self)@.token_uri == old(self)@.token_uri,
            final(self)@.extension == old(self)@.extension,
            old(self).wf() ==> final(self).wf(),
    {
        self.revoke(spender);
        let ghost kept = views_of(self.approvals@);
        self.approvals.push(Approval { spender: spender.to_owned(), expires });
        proof {
            assert(views_of(self.approvals@) =~= kept.push(ApprovalView { spender: spender@, expires }));
            lemma_approved_once(old(self)@.approvals, spender@, expires);
            if old(self).wf() {
                lemma_filter_keeps_unique(old(self)@.approvals, spender@);
                assert forall|i: int| 0 <= i < kept.len() implies kept[i].spender != spender@ by {
                    old(self)@.approvals.lemma_filter_pred(other_than(spender@), i);
                }
            }
        }
    }

    /// Empties the list of approvals.
    pub fn clear_approvals(&mut self)
        ensures
            final(self)@.approvals == Seq::<ApprovalView>::empty(),
            final(self)@.owner == old(self)@.owner,
            final(self)@.token_uri == old(self)@.token_uri,
            final(self)@.extension == old(self)@.extension,
            final(self).wf(),
    {
        self.approvals = Vec::new();
        assert(views_of(self.approvals@) =~= Seq::<ApprovalView>::empty());
    }

    /// Whether `spender` holds an approval on this token that has not lapsed.
    pub fn is_approved(&self, spender: &str, block: &BlockInfo) -> (yes: bool)
        ensures
            yes == approved_at(self@.approvals, spender@, *block),
    {
        let who: String = spender.to_owned();
        let mut i: usize = 0;
        while i < self.approvals.len()
            invariant
                i <= self.approvals.len(),
                who@ == spender@,
                forall|j: int|
                    0 <= j < i ==> !((#[trigger] self@.approvals[j]).spender == spender@
                        && !self@.approvals[j].expires.expired_at(*block)),
            decreases self.approvals.len() - i,
        {
            if self.approvals[i].spender == who && !self.approvals[i].is_expired(block) {
                assert(self@.approvals[i as int].spender == spender@);
                return true;
            }
            i = i + 1;
        }
        false
    }
}

/// The index key of a record is its owner, whatever its identifier.
pub fn token_owner_idx(_pk: &[u8], d: &TokenInfo) -> (owner: String)
    ensures
        owner@ == d@.owner,
{
    d.owner.clone()
}

/// Dropping one spender's approvals leaves the others as they stood, and
/// unique where they were.
pub proof fn lemma_filter_keeps_unique(list: Seq<ApprovalView>, spender: Seq<char>)
    requires
        unique_spenders(list),
    ensures
        unique_spenders(list.filter(other_than(spender))),
    decreases list.len(),
{
    reveal(Seq::filter);
    if list.len() > 0 {
        let front = list.drop_last();
        lemma_filter_keeps_unique(front, spender);
        let kept = front.filter(other_than(spender));
        assert forall|i: int| 0 <= i < kept.len() implies kept[i].spender != list.last().spender by {
            front.lemma_filter_contains_rev(other_than(spender), kept[i]);
        }
    }
}

/// After an approval the list holds exactly one entry for that spender, the
/// last one, with the bound just given.
pub proof fn lemma_approved_once(list: Seq<ApprovalView>, spender: Seq<char>, expires: Expiration)
    ensures
        approved(list, spender, expires).filter(|a: ApprovalView| a.spender == spender) == seq![
            ApprovalView { spender, expires },
        ],
{
    let kept = list.filter(other_than(spender));
    let mine = |a: ApprovalView| a.spender == spender;
    let entry = ApprovalView { spender, expires };
    assert forall|i: int| 0 <= i < kept.len() implies !mine(kept[i]) by {
        list.lemma_filter_pred(other_than(spender), i);
    }
    lemma_filter_none(kept, mine);
    reveal(Seq::filter);
    assert(kept.push(entry).drop_last() =~= kept);
    assert(kept.push(entry).filter(mine) =~= seq![entry]);
}

/// A list of which no entry meets the test is filtered to nothing.
proof fn lemma_filter_none(list: Seq<ApprovalView>, test: spec_fn(ApprovalView) -> bool)
    requires
        forall|i: int| 0 <= i < list.len() ==> !test(list[i]),
    ensures
        list.filter(test) == Seq::<ApprovalView>::empty(),
    decreases list.len(),
{
    reveal(Seq::filter);
    if list.len() > 0 {
        lemma_filter_none(list.drop_last(), test);
    }
}

} // verus!
