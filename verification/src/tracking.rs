//! The interaction recorder. Tracking calls arrive from untrusted mail
//! clients and browsers, possibly replayed: an open is recorded at most once
//! per message, every click is recorded, an unknown token is a silent no-op,
//! and click recording never gets in the way of resolving the redirect
//! destination.

use vstd::prelude::*;

use crate::domain::{Interaction, InteractionKind, InteractionModel};
use crate::store::{
    has_link, has_msg, has_opened, interaction_views, link_of, opened_in, opened_unique, Store,
    StoreModel,
};

verus! {

/// The store after an open-tracking hit for `token`: one `Opened` row is
/// added when the token resolves and no open is recorded yet; anything else
/// is a no-op.
pub open spec fn open_model(s: StoreModel, token: u128, now: i64) -> StoreModel {
    if has_msg(s, token) && !has_opened(s, token) {
        StoreModel {
            interactions: s.interactions.push(
                InteractionModel {
                    token,
                    kind: InteractionKind::Opened,
                    link_index: None,
                    created_at: now,
                },
            ),
            ..s
        }
    } else {
        s
    }
}

/// The store after a click-tracking hit for `token`: one `Clicked` row is
/// added whenever the token resolves, repeats included; an unknown token is
/// a no-op.
pub open spec fn click_model(s: StoreModel, token: u128, link_index: usize, now: i64) -> StoreModel {
    if has_msg(s, token) {
        StoreModel {
            interactions: s.interactions.push(
                InteractionModel {
                    token,
                    kind: InteractionKind::Clicked,
                    link_index: Some(link_index),
                    created_at: now,
                },
            ),
            ..s
        }
    } else {
        s
    }
}

/// Recording an interaction for a resolving token preserves the datastore
/// invariants.
proof fn lemma_record_wf(s: StoreModel, row: InteractionModel)
    requires
        s.wf(),
        has_msg(s, row.token),
        row.kind == InteractionKind::Opened ==> !has_opened(s, row.token),
    ensures
        (StoreModel { interactions: s.interactions.push(row), ..s }).wf(),
{
    let post = StoreModel { interactions: s.interactions.push(row), ..s };
    assert forall|i: int| 0 <= i < post.interactions.len() implies has_msg(
        post,
        #[trigger] post.interactions[i].token,
    ) by {
        if i < s.interactions.len() {
            assert(post.interactions[i] == s.interactions[i]);
            assert(has_msg(s, s.interactions[i].token));
        } else {
            assert(post.interactions[i] == row);
        }
    }
    assert forall|i: int, j: int|
        0 <= i < post.interactions.len() && 0 <= j < post.interactions.len() && i != j
            && #[trigger] post.interactions[i].kind == InteractionKind::Opened
            && #[trigger] post.interactions[j].kind
            == InteractionKind::Opened implies post.interactions[i].token
        != post.interactions[j].token by {
        if i < s.interactions.len() && j < s.interactions.len() {
            assert(s.interactions[i].token != s.interactions[j].token);
        } else if row.kind == InteractionKind::Opened {
            let x = if i < s.interactions.len() {
                i
            } else {
                j
            };
            if post.interactions[x].token == row.token {
                assert(s.interactions[x].token == row.token);
                assert(opened_in(s.interactions, row.token));
            }
        }
    }
}

impl Store {
    /// Whether an `Opened` interaction already stands for this token.
    pub(crate) fn opened_exists(&self, token: u128) -> (r: bool)
        ensures
            r == has_opened(self@, token),
    {
        let mut i: usize = 0;
        #[verifier::loop_isolation(false)]
        while i < self.interactions.len()
            invariant
                i <= self.interactions.len(),
                forall|k: int|
                    0 <= k < i ==> !(#[trigger] self@.interactions[k].token == token
                        && self@.interactions[k].kind == InteractionKind::Opened),
            decreases self.interactions.len() - i,
        {
            if self.interactions[i].token == token && matches!(
                self.interactions[i].kind,
                InteractionKind::Opened,
            ) {
                proof {
                    assert(self@.interactions[i as int].token == token
                        && self@.interactions[i as int].kind == InteractionKind::Opened);
                }
                return true;
            }
            i += 1;
        }
        false
    }

    /// Records an open for `token`: at most one `Opened` interaction ever
    /// stands per message, so a repeated pixel load changes nothing, and an
    /// unknown token is silently ignored.
    pub fn record_open(&mut self, token: u128, now: i64)
        requires
            old(self).wf(),
        ensures
            final(self).wf(),
            final(self)@ == open_model(old(self)@, token, now),
    {
        if self.get_message(token).is_none() {
            return ;
        }
        if self.opened_exists(token) {
            return ;
        }
        let ghost pre = self@;
        let row = Interaction {
            token,
            kind: InteractionKind::Opened,
            link_index: None,
            created_at: now,
        };
        let ghost rm = row@;
        self.interactions.push(row);
        proof {
            assert(interaction_views(self.interactions@) =~= pre.interactions.push(rm));
            assert(self@ =~= StoreModel { interactions: pre.interactions.push(rm), ..pre });
            lemma_record_wf(pre, rm);
        }
    }

    /// Records a click for `token` carrying the clicked link's index:
    /// every click on a resolving token is recorded, repeats included; an
    /// unknown token is silently ignored.
    pub fn record_click(&mut self, token: u128, link_index: usize, now: i64)
        requires
            old(self).wf(),
        ensures
            final(self).wf(),
            final(self)@ == click_model(old(self)@, token, link_index, now),
    {
        if self.get_message(token).is_none() {
            return ;
        }
        let ghost pre = self@;
        let row = Interaction {
            token,
            kind: InteractionKind::Clicked,
            link_index: Some(link_index),
            created_at: now,
        };
        let ghost rm = row@;
        self.interactions.push(row);
        proof {
            assert(interaction_views(self.interactions@) =~= pre.interactions.push(rm));
            assert(self@ =~= StoreModel { interactions: pre.interactions.push(rm), ..pre });
            lemma_record_wf(pre, rm);
        }
    }

    /// Resolves a redirect: the original destination of link `link_index`
    /// of the message with `token`, or nothing when either is unknown — the
    /// caller then falls back to a fixed landing page. Resolution reads
    /// only; it never depends on click recording.
    pub fn resolve_click(&self, token: u128, link_index: usize) -> (r: Option<&Vec<u8>>)
        requires
            self.wf(),
        ensures
            match r {
                Some(url) => has_link(self@, token, link_index) && url@ == link_of(
                    self@,
                    token,
                    link_index,
                ).url,
                None => !has_link(self@, token, link_index),
            },
    {
        let mut i: usize = 0;
        #[verifier::loop_isolation(false)]
        while i < self.links.len()
            invariant
                i <= self.links.len(),
                forall|k: int|
                    0 <= k < i ==> !(#[trigger] self@.links[k].token == token
                        && self@.links[k].index == link_index),
            decreases self.links.len() - i,
        {
            if self.links[i].token == token && self.links[i].index == link_index {
                proof {
                    assert(self@.links[i as int].token == token && self@.links[i as int].index
                        == link_index);
                    let j = choose|j: int|
                        0 <= j < self@.links.len() && self@.links[j].token == token
                            && self@.links[j].index == link_index;
                    assert(j == i) by {
                        if j != i {
                            assert(!(self@.links[j].token == self@.links[i as int].token
                                && self@.links[j].index == self@.links[i as int].index));
                        }
                    }
                }
                return Some(&self.links[i].url);
            }
            i += 1;
        }
        None
    }
}

/// How many `Opened` interactions stand for this token.
pub open spec fn opened_count(is: Seq<InteractionModel>, token: u128) -> int
    decreases is.len(),
{
    if is.len() == 0 {
        0
    } else {
        opened_count(is.drop_last(), token) + if is.last().token == token && is.last().kind
            == InteractionKind::Opened {
            1int
        } else {
            0int
        }
    }
}

/// How many `Clicked` interactions stand for this token.
pub open spec fn clicked_count(is: Seq<InteractionModel>, token: u128) -> int
    decreases is.len(),
{
    if is.len() == 0 {
        0
    } else {
        clicked_count(is.drop_last(), token) + if is.last().token == token && is.last().kind
            == InteractionKind::Clicked {
            1int
        } else {
            0int
        }
    }
}

/// A recorded open shows up in the count.
pub proof fn lemma_opened_count_some(is: Seq<InteractionModel>, token: u128)
    ensures
        opened_in(is, token) <==> opened_count(is, token) >= 1,
        !opened_in(is, token) <==> opened_count(is, token) == 0,
    decreases is.len(),
{
    if is.len() == 0 {
    } else {
        let dl = is.drop_last();
        lemma_opened_count_some(dl, token);
        if opened_in(is, token) {
            let i = choose|i: int|
                0 <= i < is.len() && is[i].token == token && is[i].kind == InteractionKind::Opened;
            if i < is.len() - 1 {
                assert(dl[i].token == token && dl[i].kind == InteractionKind::Opened);
                assert(opened_in(dl, token));
            }
        }
        if opened_in(dl, token) {
            let i = choose|i: int|
                0 <= i < dl.len() && dl[i].token == token && dl[i].kind == InteractionKind::Opened;
            assert(is[i].token == token && is[i].kind == InteractionKind::Opened);
        }
        if is.last().token == token && is.last().kind == InteractionKind::Opened {
            assert(is[is.len() - 1].token == token && is[is.len() - 1].kind
                == InteractionKind::Opened);
        }
    }
}

/// Under the dedup invariant, at most one open is ever counted.
pub proof fn lemma_opened_count_at_most_one(is: Seq<InteractionModel>, token: u128)
    requires
        opened_unique(is),
    ensures
        opened_count(is, token) <= 1,
    decreases is.len(),
{
    if is.len() > 0 {
        let dl = is.drop_last();
        assert(opened_unique(dl)) by {
            assert(forall|i: int| 0 <= i < dl.len() ==> dl[i] == is[i]);
        }
        lemma_opened_count_at_most_one(dl, token);
        if is.last().token == token && is.last().kind == InteractionKind::Opened {
            lemma_opened_count_some(dl, token);
            if opened_in(dl, token) {
                let i = choose|i: int|
                    0 <= i < dl.len() && dl[i].token == token && dl[i].kind
                        == InteractionKind::Opened;
                assert(is[i].kind == InteractionKind::Opened);
                assert(is[is.len() - 1].kind == InteractionKind::Opened);
                assert(is[i].token != is[is.len() - 1].token);
            }
        }
    }
}

/// Recording an open is idempotent: the second call on the same token
/// changes nothing, and for a resolving token exactly one `Opened`
/// interaction stands afterwards, no matter how often the pixel fires.
pub proof fn lemma_open_idempotent(s: StoreModel, token: u128, t1: i64, t2: i64)
    requires
        s.wf(),
    ensures
        open_model(open_model(s, token, t1), token, t2) == open_model(s, token, t1),
        has_msg(s, token) ==> opened_count(open_model(s, token, t1).interactions, token) == 1,
{
    let s1 = open_model(s, token, t1);
    if has_msg(s, token) && !has_opened(s, token) {
        let row = InteractionModel {
            token,
            kind: InteractionKind::Opened,
            link_index: None,
            created_at: t1,
        };
        assert(s1.interactions == s.interactions.push(row));
        assert(s1.interactions[s.interactions.len() as int] == row);
        assert(has_opened(s1, token));
        assert(s1.interactions.drop_last() =~= s.interactions);
        lemma_opened_count_some(s.interactions, token);
        assert(opened_count(s1.interactions, token) == 1);
    } else {
        assert(s1 == s);
        if has_msg(s, token) {
            lemma_opened_count_some(s.interactions, token);
            lemma_opened_count_at_most_one(s.interactions, token);
        }
    }
}

/// Every click on a resolving token is recorded: two calls add exactly two
/// `Clicked` interactions, and calls on unknown tokens add none.
pub proof fn lemma_click_counts(s: StoreModel, token: u128, i1: usize, i2: usize, t1: i64, t2: i64)
    ensures
        clicked_count(click_model(click_model(s, token, i1, t1), token, i2, t2).interactions, token)
            == clicked_count(s.interactions, token) + if has_msg(s, token) {
            2int
        } else {
            0int
        },
{
    let s1 = click_model(s, token, i1, t1);
    let s2 = click_model(s1, token, i2, t2);
    if has_msg(s, token) {
        let row1 = InteractionModel {
            token,
            kind: InteractionKind::Clicked,
            link_index: Some(i1),
            created_at: t1,
        };
        let row2 = InteractionModel {
            token,
            kind: InteractionKind::Clicked,
            link_index: Some(i2),
            created_at: t2,
        };
        assert(s1.interactions == s.interactions.push(row1));
        assert(s1.interactions.drop_last() =~= s.interactions);
        assert(s1.interactions.last() == row1);
        assert(clicked_count(s1.interactions, token) == clicked_count(s.interactions, token) + 1);
        assert(has_msg(s1, token));
        assert(s2.interactions == s1.interactions.push(row2));
        assert(s2.interactions.drop_last() =~= s1.interactions);
        assert(s2.interactions.last() == row2);
        assert(clicked_count(s2.interactions, token) == clicked_count(s1.interactions, token) + 1);
    } else {
        assert(s1 == s);
        assert(s2 == s);
    }
}

} // verus!
