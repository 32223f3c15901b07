//! The dispatch engine. Per employee of the campaign's company it issues a
//! tracking token, creates the provisional `SentMessage` with the rewritten
//! body and tracking pixel, records one `TrackedLink` per anchor, and then
//! keeps or rolls back that state according to the transport outcome. A
//! failed delivery leaves no trace: no message, no links, no interactions
//! under that token.

use vstd::prelude::*;

use crate::domain::{
    CampaignModel, CampaignStatus, Employee, EmployeeModel, Interaction, InteractionKind,
    InteractionModel, SentMessage, SentMessageModel, TemplateModel, TrackedLink, TrackedLinkModel,
};
use crate::rewrite::{anchor_urls, append_pixel, pixel_bytes, rewrite_links, rewritten_body};
use crate::store::{
    campaign_of, company_filter, employee_of, has_campaign, has_employee, has_msg, has_template,
    interaction_views, interactions_resolve, lemma_company_filter_push, link_views, links_resolve,
    message_views, opened_unique, roster_of, template_of, token_in, unique_campaign_ids,
    unique_link_keys, unique_tokens, Store, StoreModel,
};
use crate::text::{ascii_chars, ascii_string, dec_digits, lemma_dec_digits_ascii};

verus! {

/// The display name handed to the transport: "first last" when both parts
/// are on file, the first name alone when only it is, nothing otherwise.
pub open spec fn display_name(e: EmployeeModel) -> Option<Seq<char>> {
    match (e.first_name, e.last_name) {
        (Some(f), Some(l)) => Some(f + seq![' '] + l),
        (Some(f), None) => Some(f),
        _ => None,
    }
}

/// The tracked-link rows for a fresh message: one per anchor, indexed in
/// body order from zero.
pub open spec fn link_rows(token: u128, urls: Seq<Seq<u8>>) -> Seq<TrackedLinkModel> {
    Seq::new(urls.len(), |k: int| TrackedLinkModel { token, index: k as usize, url: urls[k] })
}

/// The message dispatched to one employee: the template body with links
/// rewritten under `token` and the tracking pixel appended.
pub open spec fn new_message(
    campaign_id: u64,
    template_id: u64,
    t: TemplateModel,
    e: EmployeeModel,
    token: u128,
    base: Seq<u8>,
    now: i64,
) -> SentMessageModel {
    SentMessageModel {
        token,
        campaign_id,
        employee_id: e.id,
        template_id,
        subject: t.subject,
        body: rewritten_body(t.body, 0, base, token, 0) + pixel_bytes(base, token),
        created_at: now,
    }
}

/// The store after one message and its link rows are recorded.
pub open spec fn prepared(
    s: StoreModel,
    campaign_id: u64,
    template_id: u64,
    t: TemplateModel,
    e: EmployeeModel,
    token: u128,
    base: Seq<u8>,
    now: i64,
) -> StoreModel {
    StoreModel {
        messages: s.messages.push(new_message(campaign_id, template_id, t, e, token, base, now)),
        links: s.links + link_rows(token, anchor_urls(t.body, 0)),
        ..s
    }
}

pub open spec fn purge_messages(ms: Seq<SentMessageModel>, token: u128) -> Seq<SentMessageModel> {
    ms.filter(|m: SentMessageModel| m.token != token)
}

pub open spec fn purge_links(ls: Seq<TrackedLinkModel>, token: u128) -> Seq<TrackedLinkModel> {
    ls.filter(|l: TrackedLinkModel| l.token != token)
}

pub open spec fn purge_interactions(is: Seq<InteractionModel>, token: u128) -> Seq<
    InteractionModel,
> {
    is.filter(|i: InteractionModel| i.token != token)
}

/// The store with every trace of `token` removed: the rollback of a failed
/// delivery.
pub open spec fn rolled_back(s: StoreModel, token: u128) -> StoreModel {
    StoreModel {
        messages: purge_messages(s.messages, token),
        links: purge_links(s.links, token),
        interactions: purge_interactions(s.interactions, token),
        ..s
    }
}

/// Pushing a message extends token resolution by exactly that token.
pub proof fn lemma_has_msg_push(s: StoreModel, post: StoreModel, m: SentMessageModel, token: u128)
    requires
        post.messages == s.messages.push(m),
    ensures
        has_msg(post, token) == (has_msg(s, token) || m.token == token),
{
    if has_msg(s, token) {
        let i = choose|i: int| 0 <= i < s.messages.len() && s.messages[i].token == token;
        assert(post.messages[i].token == token);
    }
    if m.token == token {
        assert(post.messages[s.messages.len() as int].token == token);
    }
    if has_msg(post, token) {
        let i = choose|i: int| 0 <= i < post.messages.len() && post.messages[i].token == token;
        if i < s.messages.len() {
            assert(s.messages[i].token == token);
        }
    }
}

/// Recording a fresh message and its links preserves the datastore
/// invariants.
pub proof fn lemma_prepared_wf(
    s: StoreModel,
    campaign_id: u64,
    template_id: u64,
    t: TemplateModel,
    e: EmployeeModel,
    token: u128,
    base: Seq<u8>,
    now: i64,
)
    requires
        s.wf(),
        !has_msg(s, token),
        anchor_urls(t.body, 0).len() <= usize::MAX,
    ensures
        prepared(s, campaign_id, template_id, t, e, token, base, now).wf(),
        has_msg(prepared(s, campaign_id, template_id, t, e, token, base, now), token),
{
    let m = new_message(campaign_id, template_id, t, e, token, base, now);
    let rows = link_rows(token, anchor_urls(t.body, 0));
    let post = prepared(s, campaign_id, template_id, t, e, token, base, now);
    lemma_has_msg_push(s, post, m, token);
    assert(unique_tokens(post.messages)) by {
        assert forall|i: int, j: int|
            0 <= i < post.messages.len() && 0 <= j < post.messages.len() && i
                != j implies #[trigger] post.messages[i].token
            != #[trigger] post.messages[j].token by {
            if i == s.messages.len() {
                if s.messages[j].token == token {
                    assert(has_msg(s, token));
                }
            } else if j == s.messages.len() {
                if s.messages[i].token == token {
                    assert(has_msg(s, token));
                }
            } else {
                assert(s.messages[i].token != s.messages[j].token);
            }
        }
    }
    assert(links_resolve(post)) by {
        assert forall|i: int| 0 <= i < post.links.len() implies has_msg(
            post,
            #[trigger] post.links[i].token,
        ) by {
            if i < s.links.len() {
                assert(post.links[i] == s.links[i]);
                assert(has_msg(s, s.links[i].token));
                lemma_has_msg_push(s, post, m, s.links[i].token);
            } else {
                assert(post.links[i] == rows[i - s.links.len()]);
                assert(post.links[i].token == token);
            }
        }
    }
    assert(unique_link_keys(post.links)) by {
        assert forall|i: int, j: int|
            0 <= i < post.links.len() && 0 <= j < post.links.len() && i != j implies !(
        #[trigger] post.links[i].token == #[trigger] post.links[j].token && post.links[i].index
            == post.links[j].index) by {
            if i < s.links.len() && j < s.links.len() {
                assert(!(s.links[i].token == s.links[j].token && s.links[i].index
                    == s.links[j].index));
            } else if i >= s.links.len() && j >= s.links.len() {
                let ki = i - s.links.len();
                let kj = j - s.links.len();
                assert(post.links[i] == rows[ki]);
                assert(post.links[j] == rows[kj]);
                assert(rows[ki].index == ki as usize);
                assert(rows[kj].index == kj as usize);
                assert(ki < rows.len() && kj < rows.len());
                assert(rows.len() <= usize::MAX) by {
                    assert(anchor_urls(t.body, 0).len() == rows.len());
                };
            } else if i < s.links.len() {
                if s.links[i].token == token {
                    assert(has_msg(s, token));
                }
            } else {
                if s.links[j].token == token {
                    assert(has_msg(s, token));
                }
            }
        }
    }
    assert(interactions_resolve(post)) by {
        assert forall|i: int| 0 <= i < post.interactions.len() implies has_msg(
            post,
            #[trigger] post.interactions[i].token,
        ) by {
            assert(has_msg(s, s.interactions[i].token));
            lemma_has_msg_push(s, post, m, s.interactions[i].token);
        }
    }
}

/// The reason a per-employee send preparation was refused.
#[derive(Clone, Copy, Debug, PartialEq, Eq, Structural)]
pub enum PrepareError {
    TemplateNotFound,
    EmployeeNotFound,
    TokenInUse,
}

/// What the mail transport needs for one delivery.
pub struct PreparedEmail {
    pub to_email: String,
    pub to_name: Option<String>,
    pub subject: String,
    pub body: Vec<u8>,
}

/// Copies a byte vector.
fn clone_bytes(v: &Vec<u8>) -> (r: Vec<u8>)
    ensures
        r@ == v@,
{
    let r = crate::rewrite::copy_range(v, 0, v.len());
    proof {
        assert(v@.subrange(0, v@.len() as int) =~= v@);
    }
    r
}

/// The display name for the transport, resolved from the employee's name
/// parts.
pub fn full_name(e: &Employee) -> (r: Option<String>)
    ensures
        r.deep_view() == display_name(e@),
{
    match (&e.first_name, &e.last_name) {
        (Some(f), Some(l)) => {
            let mut s = f.clone();
            s.append(" ");
            s.append(l.as_str());
            proof {
                reveal_strlit(" ");
                assert(" "@ =~= seq![' ']);
            }
            Some(s)
        },
        (Some(f), None) => Some(f.clone()),
        _ => None,
    }
}

impl Store {
    /// Creates the provisional record of one send: the message under a fresh
    /// token, with its body rewritten and pixel appended, and one tracked
    /// link per anchor of the template body. Refused when the template or
    /// employee is unknown or the token is already taken; a refusal changes
    /// nothing.
    pub fn prepare_send(
        &mut self,
        campaign_id: u64,
        template_id: u64,
        employee_id: u64,
        token: u128,
        base: &Vec<u8>,
        now: i64,
    ) -> (r: Result<PreparedEmail, PrepareError>)
        requires
            old(self).wf(),
        ensures
            final(self).wf(),
            match r {
                Ok(p) => {
                    &&& has_template(old(self)@, template_id)
                    &&& has_employee(old(self)@, employee_id)
                    &&& !has_msg(old(self)@, token)
                    &&& final(self)@ == prepared(
                        old(self)@,
                        campaign_id,
                        template_id,
                        template_of(old(self)@, template_id),
                        employee_of(old(self)@, employee_id),
                        token,
                        base@,
                        now,
                    )
                    &&& p.to_email@ == employee_of(old(self)@, employee_id).email
                    &&& p.to_name.deep_view() == display_name(employee_of(old(self)@, employee_id))
                    &&& p.subject@ == template_of(old(self)@, template_id).subject
                    &&& p.body@ == new_message(
                        campaign_id,
                        template_id,
                        template_of(old(self)@, template_id),
                        employee_of(old(self)@, employee_id),
                        token,
                        base@,
                        now,
                    ).body
                },
                Err(e) => {
                    &&& final(self)@ == old(self)@
                    &&& (e == PrepareError::TemplateNotFound <==> !has_template(
                        old(self)@,
                        template_id,
                    ))
                    &&& (e == PrepareError::EmployeeNotFound <==> has_template(
                        old(self)@,
                        template_id,
                    ) && !has_employee(old(self)@, employee_id))
                    &&& (e == PrepareError::TokenInUse <==> has_template(old(self)@, template_id)
                        && has_employee(old(self)@, employee_id) && has_msg(old(self)@, token))
                },
            },
    {
        let (subject, template_body) = match self.get_template(template_id) {
            Some(t) => (t.subject.clone(), clone_bytes(&t.body)),
            None => {
                return Err(PrepareError::TemplateNotFound);
            },
        };
        let (to_email, to_name) = match self.get_employee(employee_id) {
            Some(e) => (e.email.clone(), full_name(e)),
            None => {
                return Err(PrepareError::EmployeeNotFound);
            },
        };
        if self.get_message(token).is_some() {
            return Err(PrepareError::TokenInUse);
        }
        let ghost pre = self@;
        let ghost t = template_of(pre, template_id);
        let ghost e = employee_of(pre, employee_id);
        let ghost m = new_message(campaign_id, template_id, t, e, token, base@, now);

        let rw = rewrite_links(&template_body, base, token);
        let mut body = rw.body;
        append_pixel(&mut body, base, token);
        let out_body = clone_bytes(&body);

        let msg = SentMessage {
            token,
            campaign_id,
            employee_id,
            template_id,
            subject: subject.clone(),
            body,
            created_at: now,
        };
        proof {
            assert(msg@ == m);
        }
        self.messages.push(msg);
        proof {
            assert(message_views(self.messages@) =~= pre.messages.push(m));
        }

        let ghost urls = anchor_urls(t.body, 0);
        let mut k: usize = 0;
        let n = rw.urls.len();
        proof {
            assert(crate::rewrite::views_of(rw.urls@) == urls);
            assert(urls.len() == n);
            assert(pre.links + link_rows(token, urls).subrange(0, 0) =~= pre.links);
        }
        #[verifier::loop_isolation(false)]
        while k < n
            invariant
                k <= n,
                rw.urls@.len() == n,
                link_views(self.links@) == pre.links + link_rows(token, urls).subrange(
                    0,
                    k as int,
                ),
                message_views(self.messages@) == pre.messages.push(m),
                self.companies@ == old(self).companies@,
                self.employees@ == old(self).employees@,
                self.campaigns@ == old(self).campaigns@,
                self.templates@ == old(self).templates@,
                self.interactions@ == old(self).interactions@,
            decreases n - k,
        {
            let url = clone_bytes(&rw.urls[k]);
            let ghost pre_links = link_views(self.links@);
            self.links.push(TrackedLink { token, index: k, url });
            k += 1;
            proof {
                assert(urls[k - 1] == rw.urls@[k - 1]@);
                assert(link_views(self.links@) =~= pre_links.push(
                    link_rows(token, urls)[k - 1],
                ));
                assert(link_views(self.links@) =~= pre.links + link_rows(token, urls).subrange(
                    0,
                    k as int,
                ));
            }
        }
        proof {
            assert(link_rows(token, urls).subrange(0, urls.len() as int) =~= link_rows(
                token,
                urls,
            ));
            let post = prepared(pre, campaign_id, template_id, t, e, token, base@, now);
            assert(self@ =~= post);
            lemma_prepared_wf(pre, campaign_id, template_id, t, e, token, base@, now);
        }
        Ok(PreparedEmail { to_email, to_name, subject, body: out_body })
    }
}

/// A message with a different token survives the purge.
pub proof fn lemma_purge_messages_keeps(ms: Seq<SentMessageModel>, token: u128, t: u128)
    requires
        t != token,
        token_in(ms, t),
    ensures
        token_in(purge_messages(ms, token), t),
{
    broadcast use Seq::lemma_filter_contains;

    let i = choose|i: int| 0 <= i < ms.len() && ms[i].token == t;
    assert(purge_messages(ms, token).contains(ms[i]));
    let j = choose|j: int|
        0 <= j < purge_messages(ms, token).len() && purge_messages(ms, token)[j] == ms[i];
    assert(purge_messages(ms, token)[j].token == t);
}

/// Purging keeps tokens unique and introduces none.
pub proof fn lemma_purge_messages_unique(ms: Seq<SentMessageModel>, token: u128)
    requires
        unique_tokens(ms),
    ensures
        unique_tokens(purge_messages(ms, token)),
        forall|t: u128| token_in(purge_messages(ms, token), t) ==> token_in(ms, t),
        !token_in(purge_messages(ms, token), token),
    decreases ms.len(),
{
    broadcast use Seq::lemma_filter_push, Seq::lemma_filter_len;

    let out = purge_messages(ms, token);
    if ms.len() == 0 {
        assert(out.len() == 0);
    } else {
        let dl = ms.drop_last();
        let last = ms.last();
        assert(ms =~= dl.push(last));
        assert(unique_tokens(dl)) by {
            assert(forall|i: int| 0 <= i < dl.len() ==> dl[i] == ms[i]);
        }
        lemma_purge_messages_unique(dl, token);
        let sub = purge_messages(dl, token);
        if last.token != token {
            assert(out =~= sub.push(last));
            assert forall|i: int, j: int|
                0 <= i < out.len() && 0 <= j < out.len() && i != j implies #[trigger] out[i].token
                != #[trigger] out[j].token by {
                if i < sub.len() && j < sub.len() {
                    assert(sub[i].token != sub[j].token);
                } else {
                    let x = if i < sub.len() { i } else { j };
                    if out[x].token == last.token {
                        assert(sub[x].token == last.token);
                        assert(token_in(sub, last.token));
                        assert(token_in(dl, last.token));
                        let a = choose|a: int| 0 <= a < dl.len() && dl[a].token == last.token;
                        assert(ms[a] == dl[a]);
                        assert(ms[ms.len() - 1] == last);
                        assert(ms[a].token == ms[ms.len() - 1].token);
                    }
                }
            }
            assert forall|t: u128| token_in(out, t) implies token_in(ms, t) by {
                let i = choose|i: int| 0 <= i < out.len() && out[i].token == t;
                if i < sub.len() {
                    assert(sub[i].token == t);
                    assert(token_in(sub, t));
                    assert(token_in(dl, t));
                    let a = choose|a: int| 0 <= a < dl.len() && dl[a].token == t;
                    assert(ms[a] == dl[a]);
                    assert(ms[a].token == t);
                } else {
                    assert(ms[ms.len() - 1].token == t);
                }
            }
            assert(!token_in(out, token)) by {
                if token_in(out, token) {
                    let i = choose|i: int| 0 <= i < out.len() && out[i].token == token;
                    if i < sub.len() {
                        assert(sub[i].token == token);
                        assert(token_in(sub, token));
                    }
                }
            }
        } else {
            assert(out =~= sub);
            assert forall|t: u128| token_in(out, t) implies token_in(ms, t) by {
                assert(token_in(sub, t));
                assert(token_in(dl, t));
                let a = choose|a: int| 0 <= a < dl.len() && dl[a].token == t;
                assert(ms[a] == dl[a]);
                assert(ms[a].token == t);
            }
        }
    }
}

/// Every purged link row stood in the original table.
pub proof fn lemma_purge_links_contains(ls: Seq<TrackedLinkModel>, token: u128)
    ensures
        forall|i: int|
            0 <= i < purge_links(ls, token).len() ==> ls.contains(
                #[trigger] purge_links(ls, token)[i],
            ),
    decreases ls.len(),
{
    broadcast use Seq::lemma_filter_push, Seq::lemma_filter_len;

    let out = purge_links(ls, token);
    if ls.len() == 0 {
        assert(out.len() == 0);
    } else {
        let dl = ls.drop_last();
        let last = ls.last();
        assert(ls =~= dl.push(last));
        lemma_purge_links_contains(dl, token);
        let sub = purge_links(dl, token);
        assert forall|i: int| 0 <= i < out.len() implies ls.contains(#[trigger] out[i]) by {
            if last.token != token && i == sub.len() {
                assert(out =~= sub.push(last));
                assert(ls[ls.len() - 1] == out[i]);
            } else {
                assert(out[i] == sub[i]);
                assert(dl.contains(sub[i]));
                let a = choose|a: int| 0 <= a < dl.len() && dl[a] == sub[i];
                assert(ls[a] == out[i]);
            }
        }
    }
}

/// Purging keeps (token, index) keys unique among links.
pub proof fn lemma_purge_links_unique(ls: Seq<TrackedLinkModel>, token: u128)
    requires
        unique_link_keys(ls),
    ensures
        unique_link_keys(purge_links(ls, token)),
    decreases ls.len(),
{
    broadcast use Seq::lemma_filter_push, Seq::lemma_filter_len;

    let out = purge_links(ls, token);
    if ls.len() == 0 {
        assert(out.len() == 0);
    } else {
        let dl = ls.drop_last();
        let last = ls.last();
        assert(ls =~= dl.push(last));
        assert(unique_link_keys(dl)) by {
            assert(forall|i: int| 0 <= i < dl.len() ==> dl[i] == ls[i]);
        }
        lemma_purge_links_unique(dl, token);
        lemma_purge_links_contains(dl, token);
        let sub = purge_links(dl, token);
        if last.token != token {
            assert(out =~= sub.push(last));
            assert forall|i: int, j: int|
                0 <= i < out.len() && 0 <= j < out.len() && i != j implies !(#[trigger] out[i].token
                == #[trigger] out[j].token && out[i].index == out[j].index) by {
                if i < sub.len() && j < sub.len() {
                    assert(!(sub[i].token == sub[j].token && sub[i].index == sub[j].index));
                } else {
                    let x = if i < sub.len() { i } else { j };
                    if out[x].token == last.token && out[x].index == last.index {
                        assert(dl.contains(sub[x]));
                        let a = choose|a: int| 0 <= a < dl.len() && dl[a] == sub[x];
                        assert(ls[a].token == last.token && ls[a].index == last.index);
                        assert(ls[ls.len() - 1] == last);
                        assert(!(ls[a].token == ls[ls.len() - 1].token && ls[a].index == ls[ls.len()
                            - 1].index));
                    }
                }
            }
        } else {
            assert(out =~= sub);
        }
    }
}

/// Every purged interaction stood in the original table, and at most one
/// `Opened` row per token remains.
pub proof fn lemma_purge_interactions_props(is: Seq<InteractionModel>, token: u128)
    requires
        opened_unique(is),
    ensures
        opened_unique(purge_interactions(is, token)),
        forall|i: int|
            0 <= i < purge_interactions(is, token).len() ==> is.contains(
                #[trigger] purge_interactions(is, token)[i],
            ),
    decreases is.len(),
{
    broadcast use Seq::lemma_filter_push, Seq::lemma_filter_len;

    let out = purge_interactions(is, token);
    if is.len() == 0 {
        assert(out.len() == 0);
    } else {
        let dl = is.drop_last();
        let last = is.last();
        assert(is =~= dl.push(last));
        assert(opened_unique(dl)) by {
            assert(forall|i: int| 0 <= i < dl.len() ==> dl[i] == is[i]);
        }
        lemma_purge_interactions_props(dl, token);
        let sub = purge_interactions(dl, token);
        assert forall|i: int| 0 <= i < out.len() implies is.contains(#[trigger] out[i]) by {
            if last.token != token && i == sub.len() {
                assert(out =~= sub.push(last));
                assert(is[is.len() - 1] == out[i]);
            } else {
                assert(out[i] == sub[i]);
                assert(dl.contains(sub[i]));
                let a = choose|a: int| 0 <= a < dl.len() && dl[a] == sub[i];
                assert(is[a] == out[i]);
            }
        }
        if last.token != token {
            assert(out =~= sub.push(last));
            assert forall|i: int, j: int|
                0 <= i < out.len() && 0 <= j < out.len() && i != j && #[trigger] out[i].kind
                    == InteractionKind::Opened && #[trigger] out[j].kind
                    == InteractionKind::Opened implies out[i].token != out[j].token by {
                if i < sub.len() && j < sub.len() {
                    assert(sub[i].kind == InteractionKind::Opened);
                    assert(sub[j].kind == InteractionKind::Opened);
                } else {
                    let x = if i < sub.len() { i } else { j };
                    if out[x].token == last.token {
                        assert(dl.contains(sub[x]));
                        let a = choose|a: int| 0 <= a < dl.len() && dl[a] == sub[x];
                        assert(is[a] == sub[x]);
                        assert(is[a].kind == InteractionKind::Opened);
                        assert(is[is.len() - 1] == last);
                        assert(is[is.len() - 1].kind == InteractionKind::Opened);
                        assert(is[a].token != is[is.len() - 1].token);
                    }
                }
            }
        } else {
            assert(out =~= sub);
        }
    }
}

/// Rolling back one token preserves the datastore invariants.
pub proof fn lemma_rolled_back_wf(s: StoreModel, token: u128)
    requires
        s.wf(),
    ensures
        rolled_back(s, token).wf(),
        !has_msg(rolled_back(s, token), token),
{
    broadcast use Seq::lemma_filter_pred;

    let post = rolled_back(s, token);
    lemma_purge_messages_unique(s.messages, token);
    lemma_purge_links_unique(s.links, token);
    lemma_purge_links_contains(s.links, token);
    lemma_purge_interactions_props(s.interactions, token);
    assert(links_resolve(post)) by {
        assert forall|i: int| 0 <= i < post.links.len() implies has_msg(
            post,
            #[trigger] post.links[i].token,
        ) by {
            let l = post.links[i];
            assert(s.links.contains(l));
            let a = choose|a: int| 0 <= a < s.links.len() && s.links[a] == l;
            assert(has_msg(s, s.links[a].token));
            assert(l.token != token);
            lemma_purge_messages_keeps(s.messages, token, l.token);
        }
    }
    assert(interactions_resolve(post)) by {
        assert forall|i: int| 0 <= i < post.interactions.len() implies has_msg(
            post,
            #[trigger] post.interactions[i].token,
        ) by {
            let l = post.interactions[i];
            assert(s.interactions.contains(l));
            let a = choose|a: int| 0 <= a < s.interactions.len() && s.interactions[a] == l;
            assert(has_msg(s, s.interactions[a].token));
            assert(l.token != token);
            lemma_purge_messages_keeps(s.messages, token, l.token);
        }
    }
}

/// Purging a token that no message carries changes nothing.
pub proof fn lemma_purge_messages_identity(ms: Seq<SentMessageModel>, token: u128)
    requires
        forall|i: int| 0 <= i < ms.len() ==> #[trigger] ms[i].token != token,
    ensures
        purge_messages(ms, token) == ms,
    decreases ms.len(),
{
    broadcast use Seq::lemma_filter_push, Seq::lemma_filter_len;

    if ms.len() == 0 {
        assert(purge_messages(ms, token).len() == 0);
        assert(purge_messages(ms, token) =~= ms);
    } else {
        let dl = ms.drop_last();
        assert(ms =~= dl.push(ms.last()));
        assert(forall|i: int| 0 <= i < dl.len() ==> #[trigger] dl[i].token != token) by {
            assert(forall|i: int| 0 <= i < dl.len() ==> dl[i] == ms[i]);
        }
        lemma_purge_messages_identity(dl, token);
        assert(ms[ms.len() - 1].token != token);
        assert(purge_messages(ms, token) =~= ms);
    }
}

/// Purging a token that no link carries changes nothing.
pub proof fn lemma_purge_links_identity(ls: Seq<TrackedLinkModel>, token: u128)
    requires
        forall|i: int| 0 <= i < ls.len() ==> #[trigger] ls[i].token != token,
    ensures
        purge_links(ls, token) == ls,
    decreases ls.len(),
{
    broadcast use Seq::lemma_filter_push, Seq::lemma_filter_len;

    if ls.len() == 0 {
        assert(purge_links(ls, token).len() == 0);
        assert(purge_links(ls, token) =~= ls);
    } else {
        let dl = ls.drop_last();
        assert(ls =~= dl.push(ls.last()));
        assert(forall|i: int| 0 <= i < dl.len() ==> #[trigger] dl[i].token != token) by {
            assert(forall|i: int| 0 <= i < dl.len() ==> dl[i] == ls[i]);
        }
        lemma_purge_links_identity(dl, token);
        assert(ls[ls.len() - 1].token != token);
        assert(purge_links(ls, token) =~= ls);
    }
}

/// Purging a token that no interaction carries changes nothing.
pub proof fn lemma_purge_interactions_identity(is: Seq<InteractionModel>, token: u128)
    requires
        forall|i: int| 0 <= i < is.len() ==> #[trigger] is[i].token != token,
    ensures
        purge_interactions(is, token) == is,
    decreases is.len(),
{
    broadcast use Seq::lemma_filter_push, Seq::lemma_filter_len;

    if is.len() == 0 {
        assert(purge_interactions(is, token).len() == 0);
        assert(purge_interactions(is, token) =~= is);
    } else {
        let dl = is.drop_last();
        assert(is =~= dl.push(is.last()));
        assert(forall|i: int| 0 <= i < dl.len() ==> #[trigger] dl[i].token != token) by {
            assert(forall|i: int| 0 <= i < dl.len() ==> dl[i] == is[i]);
        }
        lemma_purge_interactions_identity(dl, token);
        assert(is[is.len() - 1].token != token);
        assert(purge_interactions(is, token) =~= is);
    }
}

/// Rolling back a freshly prepared send restores the store exactly: the
/// rollback of a failed delivery leaves no trace of the token.
pub proof fn lemma_rollback_of_prepared(
    s: StoreModel,
    campaign_id: u64,
    template_id: u64,
    t: TemplateModel,
    e: EmployeeModel,
    token: u128,
    base: Seq<u8>,
    now: i64,
)
    requires
        s.wf(),
        !has_msg(s, token),
    ensures
        rolled_back(prepared(s, campaign_id, template_id, t, e, token, base, now), token) == s,
{
    broadcast use Seq::lemma_filter_push, Seq::filter_distributes_over_add;

    let post = prepared(s, campaign_id, template_id, t, e, token, base, now);
    let m = new_message(campaign_id, template_id, t, e, token, base, now);
    let rows = link_rows(token, anchor_urls(t.body, 0));
    assert(forall|i: int| 0 <= i < s.messages.len() ==> #[trigger] s.messages[i].token != token);
    lemma_purge_messages_identity(s.messages, token);
    assert(purge_messages(post.messages, token) == s.messages);
    assert forall|i: int| 0 <= i < s.links.len() implies #[trigger] s.links[i].token != token by {
        assert(has_msg(s, s.links[i].token));
    }
    lemma_purge_links_identity(s.links, token);
    assert(purge_links(rows, token).len() == 0) by {
        assert(rows.all(|l: TrackedLinkModel| !(l.token != token))) by {
            reveal(Seq::all);
        }
        rows.lemma_all_neg_filter_empty(|l: TrackedLinkModel| l.token != token);
    }
    assert(purge_links(post.links, token) =~= s.links);
    assert forall|i: int| 0 <= i < s.interactions.len() implies #[trigger] s.interactions[i].token
        != token by {
        assert(has_msg(s, s.interactions[i].token));
    }
    lemma_purge_interactions_identity(s.interactions, token);
    assert(rolled_back(post, token) =~= s);
}

fn purge_message_rows(v: Vec<SentMessage>, token: u128) -> (r: Vec<SentMessage>)
    ensures
        message_views(r@) == purge_messages(message_views(v@), token),
{
    let ghost orig = v@;
    let mut v = v;
    let n = v.len();
    let mut out: Vec<SentMessage> = Vec::new();
    let mut k: usize = 0;
    proof {
        assert(orig.len() == n);
    }
    proof {
        broadcast use Seq::lemma_filter_len;

        assert(v@ =~= orig.subrange(0, orig.len() as int));
        assert(message_views(orig.subrange(0, 0)) =~= Seq::<SentMessageModel>::empty());
        assert(message_views(out@) =~= purge_messages(
            message_views(orig.subrange(0, 0)),
            token,
        ));
    }
    #[verifier::loop_isolation(false)]
    while v.len() > 0
        invariant
            orig.len() == n,
            k <= orig.len(),
            v@ == orig.subrange(k as int, orig.len() as int),
            message_views(out@) == purge_messages(
                message_views(orig.subrange(0, k as int)),
                token,
            ),
        decreases v@.len(),
    {
        let ghost pre_v = v@;
        let x = v.remove(0);
        proof {
            assert(k < orig.len());
            assert(x == orig[k as int]);
            assert(v@ =~= orig.subrange(k as int + 1, orig.len() as int));
        }
        let keep = x.token != token;
        let ghost pre_out = out@;
        let ghost xm = x@;
        if keep {
            out.push(x);
        }
        k += 1;
        proof {
            broadcast use Seq::lemma_filter_push;

            let prefix = orig.subrange(0, k - 1);
            assert(orig.subrange(0, k as int) =~= prefix.push(orig[k - 1]));
            assert(message_views(orig.subrange(0, k as int)) =~= message_views(prefix).push(xm));
            if keep {
                assert(message_views(out@) =~= message_views(pre_out).push(xm));
            }
            assert(message_views(out@) =~= purge_messages(
                message_views(orig.subrange(0, k as int)),
                token,
            ));
        }
    }
    proof {
        assert(orig.subrange(0, orig.len() as int) =~= orig);
    }
    out
}

fn purge_link_rows(v: Vec<TrackedLink>, token: u128) -> (r: Vec<TrackedLink>)
    ensures
        link_views(r@) == purge_links(link_views(v@), token),
{
    let ghost orig = v@;
    let mut v = v;
    let n = v.len();
    let mut out: Vec<TrackedLink> = Vec::new();
    let mut k: usize = 0;
    proof {
        assert(orig.len() == n);
    }
    proof {
        broadcast use Seq::lemma_filter_len;

        assert(v@ =~= orig.subrange(0, orig.len() as int));
        assert(link_views(orig.subrange(0, 0)) =~= Seq::<TrackedLinkModel>::empty());
        assert(link_views(out@) =~= purge_links(link_views(orig.subrange(0, 0)), token));
    }
    #[verifier::loop_isolation(false)]
    while v.len() > 0
        invariant
            orig.len() == n,
            k <= orig.len(),
            v@ == orig.subrange(k as int, orig.len() as int),
            link_views(out@) == purge_links(link_views(orig.subrange(0, k as int)), token),
        decreases v@.len(),
    {
        let ghost pre_v = v@;
        let x = v.remove(0);
        proof {
            assert(k < orig.len());
            assert(x == orig[k as int]);
            assert(v@ =~= orig.subrange(k as int + 1, orig.len() as int));
        }
        let keep = x.token != token;
        let ghost pre_out = out@;
        let ghost xm = x@;
        if keep {
            out.push(x);
        }
        k += 1;
        proof {
            broadcast use Seq::lemma_filter_push;

            let prefix = orig.subrange(0, k - 1);
            assert(orig.subrange(0, k as int) =~= prefix.push(orig[k - 1]));
            assert(link_views(orig.subrange(0, k as int)) =~= link_views(prefix).push(xm));
            if keep {
                assert(link_views(out@) =~= link_views(pre_out).push(xm));
            }
            assert(link_views(out@) =~= purge_links(
                link_views(orig.subrange(0, k as int)),
                token,
            ));
        }
    }
    proof {
        assert(orig.subrange(0, orig.len() as int) =~= orig);
    }
    out
}

fn purge_interaction_rows(v: Vec<Interaction>, token: u128) -> (r: Vec<Interaction>)
    ensures
        interaction_views(r@) == purge_interactions(interaction_views(v@), token),
{
    let ghost orig = v@;
    let mut v = v;
    let n = v.len();
    let mut out: Vec<Interaction> = Vec::new();
    let mut k: usize = 0;
    proof {
        assert(orig.len() == n);
    }
    proof {
        broadcast use Seq::lemma_filter_len;

        assert(v@ =~= orig.subrange(0, orig.len() as int));
        assert(interaction_views(orig.subrange(0, 0)) =~= Seq::<InteractionModel>::empty());
        assert(interaction_views(out@) =~= purge_interactions(
            interaction_views(orig.subrange(0, 0)),
            token,
        ));
    }
    #[verifier::loop_isolation(false)]
    while v.len() > 0
        invariant
            orig.len() == n,
            k <= orig.len(),
            v@ == orig.subrange(k as int, orig.len() as int),
            interaction_views(out@) == purge_interactions(
                interaction_views(orig.subrange(0, k as int)),
                token,
            ),
        decreases v@.len(),
    {
        let ghost pre_v = v@;
        let x = v.remove(0);
        proof {
            assert(k < orig.len());
            assert(x == orig[k as int]);
            assert(v@ =~= orig.subrange(k as int + 1, orig.len() as int));
        }
        let keep = x.token != token;
        let ghost pre_out = out@;
        let ghost xm = x@;
        if keep {
            out.push(x);
        }
        k += 1;
        proof {
            broadcast use Seq::lemma_filter_push;

            let prefix = orig.subrange(0, k - 1);
            assert(orig.subrange(0, k as int) =~= prefix.push(orig[k - 1]));
            assert(interaction_views(orig.subrange(0, k as int)) =~= interaction_views(
                prefix,
            ).push(xm));
            if keep {
                assert(interaction_views(out@) =~= interaction_views(pre_out).push(xm));
            }
            assert(interaction_views(out@) =~= purge_interactions(
                interaction_views(orig.subrange(0, k as int)),
                token,
            ));
        }
    }
    proof {
        assert(orig.subrange(0, orig.len() as int) =~= orig);
    }
    out
}

impl Store {
    /// Settles one attempted send. A delivered message stands as the durable
    /// record of what was sent; a failed delivery rolls every trace of the
    /// token back: no message, no tracked links, no interactions.
    pub fn finish_send(&mut self, token: u128, delivered: bool)
        requires
            old(self).wf(),
        ensures
            final(self).wf(),
            final(self)@ == if delivered {
                old(self)@
            } else {
                rolled_back(old(self)@, token)
            },
    {
        if !delivered {
            let mut msgs: Vec<SentMessage> = Vec::new();
            core::mem::swap(&mut msgs, &mut self.messages);
            self.messages = purge_message_rows(msgs, token);
            let mut links: Vec<TrackedLink> = Vec::new();
            core::mem::swap(&mut links, &mut self.links);
            self.links = purge_link_rows(links, token);
            let mut inters: Vec<Interaction> = Vec::new();
            core::mem::swap(&mut inters, &mut self.interactions);
            self.interactions = purge_interaction_rows(inters, token);
            proof {
                assert(self@ =~= rolled_back(old(self)@, token));
                lemma_rolled_back_wf(old(self)@, token);
            }
        }
    }
}

/// One per-employee step of a dispatch pass: a taken token counts as a
/// failure without a transport attempt; otherwise the message is recorded
/// and kept on success or rolled back to the previous state on failure.
pub open spec fn send_step(
    s: StoreModel,
    campaign_id: u64,
    template_id: u64,
    t: TemplateModel,
    e: EmployeeModel,
    token: u128,
    ok: bool,
    base: Seq<u8>,
    now: i64,
) -> (StoreModel, bool) {
    if has_msg(s, token) {
        (s, false)
    } else if ok {
        (prepared(s, campaign_id, template_id, t, e, token, base, now), true)
    } else {
        (s, false)
    }
}

/// A whole dispatch pass over the roster, in order, with `tokens[j]` and
/// `outcomes[j]` the issued token and the transport outcome for the `j`-th
/// employee. Yields the final store and the success and failure tallies.
pub open spec fn pass_model(
    s: StoreModel,
    campaign_id: u64,
    template_id: u64,
    t: TemplateModel,
    roster: Seq<EmployeeModel>,
    tokens: Seq<u128>,
    outcomes: Seq<bool>,
    base: Seq<u8>,
    now: i64,
) -> (StoreModel, int, int)
    decreases roster.len(),
{
    if roster.len() == 0 {
        (s, 0, 0)
    } else {
        let j = roster.len() - 1;
        let prev = pass_model(
            s,
            campaign_id,
            template_id,
            t,
            roster.drop_last(),
            tokens,
            outcomes,
            base,
            now,
        );
        let step = send_step(
            prev.0,
            campaign_id,
            template_id,
            t,
            roster.last(),
            tokens[j],
            outcomes[j],
            base,
            now,
        );
        (
            step.0,
            prev.1 + if step.1 {
                1int
            } else {
                0int
            },
            prev.2 + if step.1 {
                0int
            } else {
                1int
            },
        )
    }
}

/// Extending the processed roster by one employee composes the pass with one
/// step.
pub proof fn lemma_pass_model_step(
    s: StoreModel,
    campaign_id: u64,
    template_id: u64,
    t: TemplateModel,
    roster: Seq<EmployeeModel>,
    tokens: Seq<u128>,
    outcomes: Seq<bool>,
    base: Seq<u8>,
    now: i64,
    r: int,
)
    requires
        0 <= r < roster.len(),
    ensures
        ({
            let prev = pass_model(
                s,
                campaign_id,
                template_id,
                t,
                roster.subrange(0, r),
                tokens,
                outcomes,
                base,
                now,
            );
            let step = send_step(
                prev.0,
                campaign_id,
                template_id,
                t,
                roster[r],
                tokens[r],
                outcomes[r],
                base,
                now,
            );
            pass_model(
                s,
                campaign_id,
                template_id,
                t,
                roster.subrange(0, r + 1),
                tokens,
                outcomes,
                base,
                now,
            ) == (
                step.0,
                prev.1 + if step.1 {
                    1int
                } else {
                    0int
                },
                prev.2 + if step.1 {
                    0int
                } else {
                    1int
                },
            )
        }),
{
    let p1 = roster.subrange(0, r + 1);
    assert(p1.drop_last() =~= roster.subrange(0, r));
    assert(p1.last() == roster[r]);
    assert(p1.len() - 1 == r);
}

/// Walking one more employee of the table either extends the processed
/// roster prefix, when the employee belongs to the company, or leaves it.
pub proof fn lemma_company_filter_prefix_step(
    es: Seq<EmployeeModel>,
    company_id: u64,
    i: int,
    r: int,
)
    requires
        0 <= i < es.len(),
        0 <= r <= company_filter(es, company_id).len(),
        company_filter(es.subrange(0, i), company_id) == company_filter(es, company_id).subrange(
            0,
            r,
        ),
    ensures
        es[i].company_id == company_id ==> r < company_filter(es, company_id).len()
            && company_filter(es, company_id)[r] == es[i] && company_filter(
            es.subrange(0, i + 1),
            company_id,
        ) == company_filter(es, company_id).subrange(0, r + 1),
        es[i].company_id != company_id ==> company_filter(es.subrange(0, i + 1), company_id)
            == company_filter(es, company_id).subrange(0, r),
{
    broadcast use Seq::filter_distributes_over_add;

    let prefix = es.subrange(0, i);
    let prefix1 = es.subrange(0, i + 1);
    let rest = es.subrange(i + 1, es.len() as int);
    assert(prefix1 =~= prefix.push(es[i]));
    lemma_company_filter_push(prefix, es[i], company_id);
    let full = company_filter(es, company_id);
    assert(es =~= prefix1 + rest);
    assert(company_filter(prefix1 + rest, company_id) == company_filter(prefix1, company_id)
        + company_filter(rest, company_id));
    assert(full == company_filter(prefix1, company_id) + company_filter(rest, company_id));
    if es[i].company_id == company_id {
        assert(company_filter(prefix1, company_id) == full.subrange(0, r).push(es[i]));
        assert(company_filter(prefix1, company_id).len() == r + 1);
        assert(full.len() == r + 1 + company_filter(rest, company_id).len());
        assert(full[r] == company_filter(prefix1, company_id)[r]);
        assert(full[r] == es[i]);
        assert(full.subrange(0, r + 1) =~= company_filter(prefix1, company_id));
    }
}

/// The campaign table with `campaign_id` moved from draft to active and
/// stamped with the start time; any other state is left alone.
pub open spec fn activate_model(s: StoreModel, campaign_id: u64, now: i64) -> StoreModel {
    if has_campaign(s, campaign_id) && campaign_of(s, campaign_id).status
        == CampaignStatus::Draft {
        let i = choose|i: int| 0 <= i < s.campaigns.len() && s.campaigns[i].id == campaign_id;
        StoreModel {
            campaigns: s.campaigns.update(
                i,
                CampaignModel {
                    status: CampaignStatus::Active,
                    started_at: Some(now),
                    ..s.campaigns[i]
                },
            ),
            ..s
        }
    } else {
        s
    }
}

/// The reason a dispatch pass was refused before any send was attempted.
#[derive(Clone, Copy, Debug, PartialEq, Eq, Structural)]
pub enum DispatchError {
    CampaignNotFound,
    TemplateNotFound,
    NoEmployees,
}

/// The tally a dispatch pass reports.
pub struct SendCampaignResponse {
    pub sent_count: usize,
    pub failed_count: usize,
    pub message: String,
}

/// The human-readable dispatch summary.
pub open spec fn response_chars(sent: int, failed: int) -> Seq<char> {
    "Campaign sent: "@ + ascii_chars(dec_digits(sent as u128)) + " successful, "@ + ascii_chars(
        dec_digits(failed as u128),
    ) + " failed"@
}

fn response_message(sent: usize, failed: usize) -> (r: String)
    ensures
        r@ == response_chars(sent as int, failed as int),
{
    let mut s = String::new();
    s.append("Campaign sent: ");
    let mut d: Vec<u8> = Vec::new();
    crate::text::push_dec(&mut d, sent as u128);
    proof {
        lemma_dec_digits_ascii(sent as u128);
        assert(d@ =~= dec_digits(sent as u128));
    }
    let ds = ascii_string(d);
    s.append(ds.as_str());
    s.append(" successful, ");
    let mut d2: Vec<u8> = Vec::new();
    crate::text::push_dec(&mut d2, failed as u128);
    proof {
        lemma_dec_digits_ascii(failed as u128);
        assert(d2@ =~= dec_digits(failed as u128));
    }
    let ds2 = ascii_string(d2);
    s.append(ds2.as_str());
    s.append(" failed");
    proof {
        assert(s@ =~= response_chars(sent as int, failed as int));
    }
    s
}

/// Relies on uuid::Uuid::new_v4 and Uuid::as_u128: a fresh version-4 UUID
/// drawn from the process's random source, read back as its 128-bit value.
/// Nothing is assumed of the result; callers treat it as an arbitrary,
/// possibly colliding token and check freshness against the store.
#[verifier::external_body]
fn fresh_token() -> u128 {
    uuid::Uuid::new_v4().as_u128()
}

impl Store {
    /// Moves a draft campaign to active and stamps the start time; active or
    /// completed campaigns, and unknown ids, are left alone.
    pub fn activate_campaign(&mut self, campaign_id: u64, now: i64)
        requires
            old(self).wf(),
        ensures
            final(self).wf(),
            final(self)@ == activate_model(old(self)@, campaign_id, now),
    {
        let ghost pre = self@;
        let mut i: usize = 0;
        #[verifier::loop_isolation(false)]
        while i < self.campaigns.len()
            invariant
                i <= self.campaigns.len(),
                self@ == pre,
                forall|k: int| 0 <= k < i ==> #[trigger] self@.campaigns[k].id != campaign_id,
            decreases self.campaigns.len() - i,
        {
            if self.campaigns[i].id == campaign_id {
                proof {
                    assert(pre.campaigns[i as int].id == campaign_id);
                    let j = choose|j: int|
                        0 <= j < pre.campaigns.len() && pre.campaigns[j].id == campaign_id;
                    assert(j == i) by {
                        if j != i {
                            assert(pre.campaigns[j].id != pre.campaigns[i as int].id);
                        }
                    }
                    assert(campaign_of(pre, campaign_id) == pre.campaigns[i as int]);
                }
                let mut c = self.campaigns.remove(i);
                proof {
                    assert(c@ == pre.campaigns[i as int]);
                }
                if !matches!(c.status, CampaignStatus::Draft) {
                    self.campaigns.insert(i, c);
                    proof {
                        assert(campaign_of(pre, campaign_id).status != CampaignStatus::Draft);
                        assert(self@ =~= pre);
                    }
                    return ;
                }
                proof {
                    assert(campaign_of(pre, campaign_id).status == CampaignStatus::Draft);
                }
                c.status = CampaignStatus::Active;
                c.started_at = Some(now);
                let ghost cm = c@;
                self.campaigns.insert(i, c);
                proof {
                    let post = StoreModel {
                        campaigns: pre.campaigns.update(i as int, cm),
                        ..pre
                    };
                    assert(self@ =~= post);
                    assert(unique_campaign_ids(post.campaigns)) by {
                        assert forall|x: int, y: int|
                            0 <= x < post.campaigns.len() && 0 <= y < post.campaigns.len() && x
                                != y implies #[trigger] post.campaigns[x].id
                            != #[trigger] post.campaigns[y].id by {
                            assert(post.campaigns[x].id == pre.campaigns[x].id);
                            assert(post.campaigns[y].id == pre.campaigns[y].id);
                            assert(pre.campaigns[x].id != pre.campaigns[y].id);
                        }
                    }
                    crate::store::lemma_wf_entities_changed(pre, post);
                    assert(self@ == activate_model(pre, campaign_id, now));
                }
                return ;
            }
            i += 1;
        }
        proof {
            assert(!has_campaign(pre, campaign_id));
        }
    }

    /// One full dispatch pass for a campaign: one send attempt per employee
    /// of the campaign's company, walked in table order, with `tokens[j]`
    /// the token issued for the `j`-th roster employee and `outcomes[j]`
    /// whether the transport delivered that message. A missing campaign or
    /// template, or an empty roster, is refused before any state changes;
    /// otherwise the pass runs to the end, failures only counted, and a
    /// draft campaign comes out active.
    #[verifier::rlimit(80)]
    pub fn dispatch(
        &mut self,
        campaign_id: u64,
        template_id: u64,
        tokens: &Vec<u128>,
        outcomes: &Vec<bool>,
        base: &Vec<u8>,
        now: i64,
    ) -> (r: Result<SendCampaignResponse, DispatchError>)
        requires
            old(self).wf(),
            tokens@.len() == outcomes@.len(),
            has_campaign(old(self)@, campaign_id) && has_template(old(self)@, template_id)
                ==> tokens@.len() == roster_of(
                old(self)@,
                campaign_of(old(self)@, campaign_id).company_id,
            ).len(),
        ensures
            final(self).wf(),
            match r {
                Err(DispatchError::CampaignNotFound) => final(self)@ == old(self)@
                    && !has_campaign(old(self)@, campaign_id),
                Err(DispatchError::TemplateNotFound) => final(self)@ == old(self)@ && has_campaign(
                    old(self)@,
                    campaign_id,
                ) && !has_template(old(self)@, template_id),
                Err(DispatchError::NoEmployees) => final(self)@ == old(self)@ && has_campaign(
                    old(self)@,
                    campaign_id,
                ) && has_template(old(self)@, template_id) && roster_of(
                    old(self)@,
                    campaign_of(old(self)@, campaign_id).company_id,
                ).len() == 0,
                Ok(resp) => ({
                    let roster = roster_of(
                        old(self)@,
                        campaign_of(old(self)@, campaign_id).company_id,
                    );
                    let pm = pass_model(
                        old(self)@,
                        campaign_id,
                        template_id,
                        template_of(old(self)@, template_id),
                        roster,
                        tokens@,
                        outcomes@,
                        base@,
                        now,
                    );
                    &&& has_campaign(old(self)@, campaign_id)
                    &&& has_template(old(self)@, template_id)
                    &&& roster.len() > 0
                    &&& final(self)@ == activate_model(pm.0, campaign_id, now)
                    &&& resp.sent_count == pm.1
                    &&& resp.failed_count == pm.2
                    &&& resp.sent_count + resp.failed_count == roster.len()
                    &&& resp.message@ == response_chars(pm.1, pm.2)
                }),
            },
    {
        let company_id = match self.get_campaign(campaign_id) {
            Some(c) => c.company_id,
            None => {
                return Err(DispatchError::CampaignNotFound);
            },
        };
        if self.get_template(template_id).is_none() {
            return Err(DispatchError::TemplateNotFound);
        }
        let ghost pre = self@;
        let ghost t = template_of(pre, template_id);
        let ghost roster = roster_of(pre, company_id);

        let mut sent: usize = 0;
        let mut failed: usize = 0;
        let mut rpos: usize = 0;
        let mut i: usize = 0;
        let n = self.employees.len();
        proof {
            assert(pre.employees.subrange(0, 0) =~= Seq::<EmployeeModel>::empty());
            assert(roster.subrange(0, 0) =~= Seq::<EmployeeModel>::empty());
            assert(company_filter(Seq::<EmployeeModel>::empty(), company_id).len() <= 0) by {
                Seq::<EmployeeModel>::empty().lemma_filter_len(
                    |e: EmployeeModel| e.company_id == company_id,
                );
            }
            assert(company_filter(pre.employees.subrange(0, 0), company_id) =~= roster.subrange(
                0,
                0,
            ));
        }
        #[verifier::loop_isolation(false)]
        while i < n
            invariant
                i <= n,
                n == self@.employees.len(),
                rpos <= roster.len(),
                sent + failed == rpos,
                self@.employees == pre.employees,
                self@.campaigns == pre.campaigns,
                self@.templates == pre.templates,
                self@.companies == pre.companies,
                self@.wf(),
                company_filter(pre.employees.subrange(0, i as int), company_id) == roster.subrange(
                    0,
                    rpos as int,
                ),
                ({
                    let pm = pass_model(
                        pre,
                        campaign_id,
                        template_id,
                        t,
                        roster.subrange(0, rpos as int),
                        tokens@,
                        outcomes@,
                        base@,
                        now,
                    );
                    self@ == pm.0 && sent == pm.1 && failed == pm.2
                }),
            decreases n - i,
        {
            let ghost emp = pre.employees[i as int];
            if self.employees[i].company_id == company_id {
                proof {
                    lemma_company_filter_prefix_step(
                        pre.employees,
                        company_id,
                        i as int,
                        rpos as int,
                    );
                    assert(rpos < roster.len());
                    assert(roster[rpos as int] == emp);
                }
                let employee_id = self.employees[i].id;
                let token = tokens[rpos];
                let delivered = outcomes[rpos];
                let ghost prev = self@;
                proof {
                    assert(has_template(prev, template_id));
                    assert(template_of(prev, template_id) == t);
                    assert(prev.employees[i as int].id == employee_id);
                    assert(has_employee(prev, employee_id));
                    assert(employee_of(prev, employee_id) == emp) by {
                        let j = choose|j: int|
                            0 <= j < prev.employees.len() && prev.employees[j].id == employee_id;
                        if j != i {
                            assert(prev.employees[j].id != prev.employees[i as int].id);
                        }
                    }
                }
                match self.prepare_send(campaign_id, template_id, employee_id, token, base, now) {
                    Ok(_p) => {
                        self.finish_send(token, delivered);
                        if delivered {
                            sent += 1;
                        } else {
                            failed += 1;
                            proof {
                                lemma_rollback_of_prepared(
                                    prev,
                                    campaign_id,
                                    template_id,
                                    t,
                                    emp,
                                    token,
                                    base@,
                                    now,
                                );
                            }
                        }
                    },
                    Err(_e) => {
                        failed += 1;
                        proof {
                            assert(has_msg(prev, token));
                        }
                    },
                }
                rpos += 1;
                proof {
                    lemma_pass_model_step(
                        pre,
                        campaign_id,
                        template_id,
                        t,
                        roster,
                        tokens@,
                        outcomes@,
                        base@,
                        now,
                        rpos - 1,
                    );
                    let pm = pass_model(
                        pre,
                        campaign_id,
                        template_id,
                        t,
                        roster.subrange(0, rpos as int),
                        tokens@,
                        outcomes@,
                        base@,
                        now,
                    );
                    assert(self@ == pm.0 && sent == pm.1 && failed == pm.2);
                }
            } else {
                proof {
                    lemma_company_filter_prefix_step(
                        pre.employees,
                        company_id,
                        i as int,
                        rpos as int,
                    );
                }
            }
            i += 1;
        }
        proof {
            assert(pre.employees.subrange(0, pre.employees.len() as int) =~= pre.employees);
            assert(roster.subrange(0, rpos as int) == roster);
            assert(rpos == roster.len());
            assert(roster.subrange(0, roster.len() as int) =~= roster);
        }
        if rpos == 0 {
            return Err(DispatchError::NoEmployees);
        }
        self.activate_campaign(campaign_id, now);
        let message = response_message(sent, failed);
        Ok(SendCampaignResponse { sent_count: sent, failed_count: failed, message })
    }
}

/// The relation `send_campaign` establishes for the token sequence it drew:
/// the post-state and tallies are those of a full dispatch pass under those
/// tokens.
pub open spec fn send_campaign_post(
    pre: StoreModel,
    post: StoreModel,
    campaign_id: u64,
    template_id: u64,
    ts: Seq<u128>,
    outcomes: Seq<bool>,
    base: Seq<u8>,
    now: i64,
    sent: int,
    failed: int,
) -> bool {
    let roster = roster_of(pre, campaign_of(pre, campaign_id).company_id);
    let pm = pass_model(
        pre,
        campaign_id,
        template_id,
        template_of(pre, template_id),
        roster,
        ts,
        outcomes,
        base,
        now,
    );
    &&& ts.len() == outcomes.len()
    &&& post == activate_model(pm.0, campaign_id, now)
    &&& sent == pm.1
    &&& failed == pm.2
}

impl Store {
    /// Dispatches a campaign with freshly drawn random tokens, one per
    /// transport outcome. The post-state is that of `dispatch` for some
    /// token sequence of that length.
    pub fn send_campaign(
        &mut self,
        campaign_id: u64,
        template_id: u64,
        outcomes: &Vec<bool>,
        base: &Vec<u8>,
        now: i64,
    ) -> (r: Result<SendCampaignResponse, DispatchError>)
        requires
            old(self).wf(),
            has_campaign(old(self)@, campaign_id) && has_template(old(self)@, template_id)
                ==> outcomes@.len() == roster_of(
                old(self)@,
                campaign_of(old(self)@, campaign_id).company_id,
            ).len(),
        ensures
            final(self).wf(),
            match r {
                Err(DispatchError::CampaignNotFound) => final(self)@ == old(self)@
                    && !has_campaign(old(self)@, campaign_id),
                Err(DispatchError::TemplateNotFound) => final(self)@ == old(self)@ && has_campaign(
                    old(self)@,
                    campaign_id,
                ) && !has_template(old(self)@, template_id),
                Err(DispatchError::NoEmployees) => final(self)@ == old(self)@ && has_campaign(
                    old(self)@,
                    campaign_id,
                ) && has_template(old(self)@, template_id) && roster_of(
                    old(self)@,
                    campaign_of(old(self)@, campaign_id).company_id,
                ).len() == 0,
                Ok(resp) => ({
                    let roster = roster_of(
                        old(self)@,
                        campaign_of(old(self)@, campaign_id).company_id,
                    );
                    &&& has_campaign(old(self)@, campaign_id)
                    &&& has_template(old(self)@, template_id)
                    &&& roster.len() > 0
                    &&& resp.sent_count + resp.failed_count == roster.len()
                    &&& resp.message@ == response_chars(
                        resp.sent_count as int,
                        resp.failed_count as int,
                    )
                    &&& exists|ts: Seq<u128>|
                        #[trigger] send_campaign_post(
                            old(self)@,
                            final(self)@,
                            campaign_id,
                            template_id,
                            ts,
                            outcomes@,
                            base@,
                            now,
                            resp.sent_count as int,
                            resp.failed_count as int,
                        )
                }),
            },
    {
        let mut tokens: Vec<u128> = Vec::new();
        let n = outcomes.len();
        #[verifier::loop_isolation(false)]
        while tokens.len() < n
            invariant
                tokens@.len() <= n,
            decreases n - tokens@.len(),
        {
            tokens.push(fresh_token());
        }
        let r = self.dispatch(campaign_id, template_id, &tokens, outcomes, base, now);
        proof {
            if let Ok(resp) = &r {
                assert(send_campaign_post(
                    old(self)@,
                    self@,
                    campaign_id,
                    template_id,
                    tokens@,
                    outcomes@,
                    base@,
                    now,
                    resp.sent_count as int,
                    resp.failed_count as int,
                ));
            }
        }
        r
    }
}

/// After a successful per-employee send, a tracked link stands for every
/// anchor of the original template body, keyed (token, k) for k from 0 to
/// n-1 in body order, and each resolves back to that anchor's original
/// destination: rewriting and then resolving any returned index is the
/// identity on destinations.
pub proof fn lemma_prepared_links_round_trip(
    s: StoreModel,
    campaign_id: u64,
    template_id: u64,
    t: TemplateModel,
    e: EmployeeModel,
    token: u128,
    base: Seq<u8>,
    now: i64,
)
    requires
        s.wf(),
        !has_msg(s, token),
        anchor_urls(t.body, 0).len() <= usize::MAX,
    ensures
        forall|k: int|
            0 <= k < anchor_urls(t.body, 0).len() ==> #[trigger] crate::store::has_link(
                prepared(s, campaign_id, template_id, t, e, token, base, now),
                token,
                k as usize,
            ),
        forall|k: int|
            0 <= k < anchor_urls(t.body, 0).len() ==> (#[trigger] crate::store::link_of(
                prepared(s, campaign_id, template_id, t, e, token, base, now),
                token,
                k as usize,
            )).url == anchor_urls(t.body, 0)[k],
{
    let post = prepared(s, campaign_id, template_id, t, e, token, base, now);
    let urls = anchor_urls(t.body, 0);
    let rows = link_rows(token, urls);
    lemma_prepared_wf(s, campaign_id, template_id, t, e, token, base, now);
    assert forall|k: int| 0 <= k < urls.len() implies #[trigger] crate::store::has_link(
        post,
        token,
        k as usize,
    ) by {
        let w = s.links.len() + k;
        assert(post.links[w] == rows[k]);
        assert(post.links[w].token == token && post.links[w].index == k as usize);
    }
    assert forall|k: int| 0 <= k < urls.len() implies (#[trigger] crate::store::link_of(
        post,
        token,
        k as usize,
    )).url == urls[k] by {
        let w = s.links.len() + k;
        assert(post.links[w] == rows[k]);
        assert(post.links[w].token == token && post.links[w].index == k as usize);
        let j = choose|j: int|
            0 <= j < post.links.len() && post.links[j].token == token && post.links[j].index == (
            k as usize);
        assert(j == w) by {
            if j != w {
                assert(!(post.links[j].token == post.links[w].token && post.links[j].index
                    == post.links[w].index));
            }
        }
        assert(crate::store::link_of(post, token, k as usize) == post.links[w]);
        assert(post.links[w].url == urls[k]);
    }
}

/// A rollback leaves no trace of the token: it resolves to no message, no
/// tracked link under it remains at any index, and no interaction under it
/// remains.
pub proof fn lemma_rollback_leaves_no_trace(s: StoreModel, token: u128)
    requires
        s.wf(),
    ensures
        !has_msg(rolled_back(s, token), token),
        forall|idx: usize| !crate::store::has_link(rolled_back(s, token), token, idx),
        forall|i: int|
            0 <= i < rolled_back(s, token).interactions.len()
                ==> #[trigger] rolled_back(s, token).interactions[i].token != token,
{
    broadcast use Seq::lemma_filter_pred;

    let post = rolled_back(s, token);
    lemma_rolled_back_wf(s, token);
    assert forall|idx: usize| !crate::store::has_link(post, token, idx) by {
        if crate::store::has_link(post, token, idx) {
            let j = choose|j: int|
                0 <= j < post.links.len() && post.links[j].token == token && post.links[j].index
                    == idx;
            assert(post.links[j].token != token);
        }
    }
    assert forall|i: int|
        0 <= i < post.interactions.len() implies #[trigger] post.interactions[i].token != token by {
        assert(post.interactions[i].token != token);
    }
}

} // verus!
