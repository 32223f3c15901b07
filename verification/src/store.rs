//! The in-memory datastore. `Store` holds the entity tables and the three
//! tracking tables; `StoreModel` is its mathematical model. `wf` states the
//! datastore invariants: unique entity ids, globally unique tracking tokens,
//! tracked links and interactions that always resolve to an existing message,
//! a unique (token, index) key per link, and at most one `Opened` interaction
//! per message.

use vstd::prelude::*;

use crate::domain::{
    merged_campaign, merged_company, merged_employee, merged_template, Campaign, CampaignModel,
    Company, CompanyModel, Employee, EmployeeModel, Interaction, InteractionKind, InteractionModel,
    SentMessage, SentMessageModel, Template, TemplateModel, TrackedLink, TrackedLinkModel,
    UpdateCampaign, UpdateCompany, UpdateEmployee, UpdateTemplate,
};

verus! {

#[verifier::ext_equal]
pub struct StoreModel {
    pub companies: Seq<CompanyModel>,
    pub employees: Seq<EmployeeModel>,
    pub campaigns: Seq<CampaignModel>,
    pub templates: Seq<TemplateModel>,
    pub messages: Seq<SentMessageModel>,
    pub links: Seq<TrackedLinkModel>,
    pub interactions: Seq<InteractionModel>,
}

pub struct Store {
    pub companies: Vec<Company>,
    pub employees: Vec<Employee>,
    pub campaigns: Vec<Campaign>,
    pub templates: Vec<Template>,
    pub messages: Vec<SentMessage>,
    pub links: Vec<TrackedLink>,
    pub interactions: Vec<Interaction>,
}

pub open spec fn company_views(v: Seq<Company>) -> Seq<CompanyModel> {
    v.map_values(|c: Company| c@)
}

pub open spec fn employee_views(v: Seq<Employee>) -> Seq<EmployeeModel> {
    v.map_values(|e: Employee| e@)
}

pub open spec fn campaign_views(v: Seq<Campaign>) -> Seq<CampaignModel> {
    v.map_values(|c: Campaign| c@)
}

pub open spec fn template_views(v: Seq<Template>) -> Seq<TemplateModel> {
    v.map_values(|t: Template| t@)
}

pub open spec fn message_views(v: Seq<SentMessage>) -> Seq<SentMessageModel> {
    v.map_values(|m: SentMessage| m@)
}

pub open spec fn link_views(v: Seq<TrackedLink>) -> Seq<TrackedLinkModel> {
    v.map_values(|l: TrackedLink| l@)
}

pub open spec fn interaction_views(v: Seq<Interaction>) -> Seq<InteractionModel> {
    v.map_values(|i: Interaction| i@)
}

impl View for Store {
    type V = StoreModel;

    open spec fn view(&self) -> StoreModel {
        StoreModel {
            companies: company_views(self.companies@),
            employees: employee_views(self.employees@),
            campaigns: campaign_views(self.campaigns@),
            templates: template_views(self.templates@),
            messages: message_views(self.messages@),
            links: link_views(self.links@),
            interactions: interaction_views(self.interactions@),
        }
    }
}

pub open spec fn has_company(s: StoreModel, id: u64) -> bool {
    exists|i: int| 0 <= i < s.companies.len() && s.companies[i].id == id
}

pub open spec fn company_index(s: StoreModel, id: u64) -> int {
    choose|i: int| 0 <= i < s.companies.len() && s.companies[i].id == id
}

pub open spec fn company_of(s: StoreModel, id: u64) -> CompanyModel {
    s.companies[company_index(s, id)]
}

pub open spec fn has_employee(s: StoreModel, id: u64) -> bool {
    exists|i: int| 0 <= i < s.employees.len() && s.employees[i].id == id
}

pub open spec fn employee_index(s: StoreModel, id: u64) -> int {
    choose|i: int| 0 <= i < s.employees.len() && s.employees[i].id == id
}

pub open spec fn employee_of(s: StoreModel, id: u64) -> EmployeeModel {
    s.employees[employee_index(s, id)]
}

pub open spec fn has_campaign(s: StoreModel, id: u64) -> bool {
    exists|i: int| 0 <= i < s.campaigns.len() && s.campaigns[i].id == id
}

pub open spec fn campaign_index(s: StoreModel, id: u64) -> int {
    choose|i: int| 0 <= i < s.campaigns.len() && s.campaigns[i].id == id
}

pub open spec fn campaign_of(s: StoreModel, id: u64) -> CampaignModel {
    s.campaigns[campaign_index(s, id)]
}

pub open spec fn has_template(s: StoreModel, id: u64) -> bool {
    exists|i: int| 0 <= i < s.templates.len() && s.templates[i].id == id
}

pub open spec fn template_index(s: StoreModel, id: u64) -> int {
    choose|i: int| 0 <= i < s.templates.len() && s.templates[i].id == id
}

pub open spec fn template_of(s: StoreModel, id: u64) -> TemplateModel {
    s.templates[template_index(s, id)]
}

/// Whether some message in the table carries this token.
pub open spec fn token_in(ms: Seq<SentMessageModel>, token: u128) -> bool {
    exists|i: int| 0 <= i < ms.len() && ms[i].token == token
}

/// Whether the tracking token resolves to a sent message.
pub open spec fn has_msg(s: StoreModel, token: u128) -> bool {
    token_in(s.messages, token)
}

pub open spec fn msg_of(s: StoreModel, token: u128) -> SentMessageModel {
    s.messages[choose|i: int| 0 <= i < s.messages.len() && s.messages[i].token == token]
}

/// Whether some link in the table carries this (token, index) key.
pub open spec fn link_key_in(ls: Seq<TrackedLinkModel>, token: u128, index: usize) -> bool {
    exists|i: int| 0 <= i < ls.len() && ls[i].token == token && ls[i].index == index
}

/// Whether a tracked link with key (token, index) exists.
pub open spec fn has_link(s: StoreModel, token: u128, index: usize) -> bool {
    link_key_in(s.links, token, index)
}

pub open spec fn link_of(s: StoreModel, token: u128, index: usize) -> TrackedLinkModel {
    s.links[choose|i: int|
        0 <= i < s.links.len() && s.links[i].token == token && s.links[i].index == index]
}

/// Whether an `Opened` interaction for this token stands in the table.
pub open spec fn opened_in(is: Seq<InteractionModel>, token: u128) -> bool {
    exists|i: int|
        0 <= i < is.len() && is[i].token == token && is[i].kind == InteractionKind::Opened
}

/// Whether an `Opened` interaction is already recorded for this token.
pub open spec fn has_opened(s: StoreModel, token: u128) -> bool {
    opened_in(s.interactions, token)
}

/// The employees of one company, kept in table order.
pub open spec fn company_filter(es: Seq<EmployeeModel>, company_id: u64) -> Seq<EmployeeModel> {
    es.filter(|e: EmployeeModel| e.company_id == company_id)
}

/// Extending the table by one employee extends the filtered roster exactly
/// when the employee belongs to the company.
pub proof fn lemma_company_filter_push(es: Seq<EmployeeModel>, e: EmployeeModel, company_id: u64)
    ensures
        company_filter(es.push(e), company_id) == if e.company_id == company_id {
            company_filter(es, company_id).push(e)
        } else {
            company_filter(es, company_id)
        },
{
    broadcast use Seq::lemma_filter_push;

}

/// The roster a dispatch pass walks: the campaign company's employees.
pub open spec fn roster_of(s: StoreModel, company_id: u64) -> Seq<EmployeeModel> {
    company_filter(s.employees, company_id)
}

pub open spec fn ids_of(es: Seq<EmployeeModel>) -> Seq<u64> {
    es.map_values(|e: EmployeeModel| e.id)
}

pub open spec fn unique_company_ids(cs: Seq<CompanyModel>) -> bool {
    forall|i: int, j: int|
        0 <= i < cs.len() && 0 <= j < cs.len() && i != j ==> #[trigger] cs[i].id
            != #[trigger] cs[j].id
}

pub open spec fn unique_employee_ids(es: Seq<EmployeeModel>) -> bool {
    forall|i: int, j: int|
        0 <= i < es.len() && 0 <= j < es.len() && i != j ==> #[trigger] es[i].id
            != #[trigger] es[j].id
}

pub open spec fn unique_campaign_ids(cs: Seq<CampaignModel>) -> bool {
    forall|i: int, j: int|
        0 <= i < cs.len() && 0 <= j < cs.len() && i != j ==> #[trigger] cs[i].id
            != #[trigger] cs[j].id
}

pub open spec fn unique_template_ids(ts: Seq<TemplateModel>) -> bool {
    forall|i: int, j: int|
        0 <= i < ts.len() && 0 <= j < ts.len() && i != j ==> #[trigger] ts[i].id
            != #[trigger] ts[j].id
}

/// Tracking tokens are globally unique among sent messages.
pub open spec fn unique_tokens(ms: Seq<SentMessageModel>) -> bool {
    forall|i: int, j: int|
        0 <= i < ms.len() && 0 <= j < ms.len() && i != j ==> #[trigger] ms[i].token
            != #[trigger] ms[j].token
}

/// Every tracked link belongs to a message that exists.
pub open spec fn links_resolve(s: StoreModel) -> bool {
    forall|i: int| 0 <= i < s.links.len() ==> has_msg(s, #[trigger] s.links[i].token)
}

/// (token, index) is a key among tracked links.
pub open spec fn unique_link_keys(ls: Seq<TrackedLinkModel>) -> bool {
    forall|i: int, j: int|
        0 <= i < ls.len() && 0 <= j < ls.len() && i != j ==> !(#[trigger] ls[i].token
            == #[trigger] ls[j].token && ls[i].index == ls[j].index)
}

/// Every interaction belongs to a message that exists.
pub open spec fn interactions_resolve(s: StoreModel) -> bool {
    forall|i: int| 0 <= i < s.interactions.len() ==> has_msg(s, #[trigger] s.interactions[i].token)
}

/// At most one `Opened` interaction is recorded per message.
pub open spec fn opened_unique(is: Seq<InteractionModel>) -> bool {
    forall|i: int, j: int|
        0 <= i < is.len() && 0 <= j < is.len() && i != j && #[trigger] is[i].kind
            == InteractionKind::Opened && #[trigger] is[j].kind == InteractionKind::Opened
            ==> is[i].token != is[j].token
}

impl StoreModel {
    pub open spec fn empty() -> StoreModel {
        StoreModel {
            companies: Seq::empty(),
            employees: Seq::empty(),
            campaigns: Seq::empty(),
            templates: Seq::empty(),
            messages: Seq::empty(),
            links: Seq::empty(),
            interactions: Seq::empty(),
        }
    }

    /// The datastore invariants.
    pub open spec fn wf(self) -> bool {
        &&& unique_company_ids(self.companies)
        &&& unique_employee_ids(self.employees)
        &&& unique_campaign_ids(self.campaigns)
        &&& unique_template_ids(self.templates)
        &&& unique_tokens(self.messages)
        &&& links_resolve(self)
        &&& unique_link_keys(self.links)
        &&& interactions_resolve(self)
        &&& opened_unique(self.interactions)
    }
}

/// `has_msg` depends only on the message table.
pub proof fn lemma_has_msg_same_messages(a: StoreModel, b: StoreModel, token: u128)
    requires
        a.messages == b.messages,
        has_msg(a, token),
    ensures
        has_msg(b, token),
{
    let i = choose|i: int| 0 <= i < a.messages.len() && a.messages[i].token == token;
    assert(0 <= i < b.messages.len() && b.messages[i].token == token);
}

/// A change that leaves the message, link, and interaction tables alone
/// preserves the tracking invariants.
pub proof fn lemma_wf_entities_changed(pre: StoreModel, post: StoreModel)
    requires
        pre.wf(),
        post.messages == pre.messages,
        post.links == pre.links,
        post.interactions == pre.interactions,
        unique_company_ids(post.companies),
        unique_employee_ids(post.employees),
        unique_campaign_ids(post.campaigns),
        unique_template_ids(post.templates),
    ensures
        post.wf(),
{
    assert forall|i: int| 0 <= i < post.links.len() implies has_msg(
        post,
        #[trigger] post.links[i].token,
    ) by {
        lemma_has_msg_same_messages(pre, post, post.links[i].token);
    }
    assert forall|i: int| 0 <= i < post.interactions.len() implies has_msg(
        post,
        #[trigger] post.interactions[i].token,
    ) by {
        lemma_has_msg_same_messages(pre, post, post.interactions[i].token);
    }
}

impl Store {
    pub open spec fn wf(&self) -> bool {
        self@.wf()
    }

    pub fn new() -> (s: Store)
        ensures
            s@ == StoreModel::empty(),
            s.wf(),
    {
        let s = Store {
            companies: Vec::new(),
            employees: Vec::new(),
            campaigns: Vec::new(),
            templates: Vec::new(),
            messages: Vec::new(),
            links: Vec::new(),
            interactions: Vec::new(),
        };
        assert(s@ =~= StoreModel::empty());
        s
    }

    /// Inserts a company; rejected when the id is already taken.
    pub fn add_company(&mut self, c: Company) -> (ok: bool)
        requires
            old(self).wf(),
        ensures
            final(self).wf(),
            ok == !has_company(old(self)@, c.id),
            final(self)@ == if has_company(old(self)@, c.id) {
                old(self)@
            } else {
                StoreModel { companies: old(self)@.companies.push(c@), ..old(self)@ }
            },
    {
        let mut i: usize = 0;
        #[verifier::loop_isolation(false)]
        while i < self.companies.len()
            invariant
                i <= self.companies.len(),
                forall|k: int| 0 <= k < i ==> #[trigger] self@.companies[k].id != c.id,
            decreases self.companies.len() - i,
        {
            if self.companies[i].id == c.id {
                proof {
                    assert(self@.companies[i as int].id == c.id);
                }
                return false;
            }
            i += 1;
        }
        let ghost pre = self@;
        let ghost cm = c@;
        self.companies.push(c);
        proof {
            let post = StoreModel { companies: pre.companies.push(cm), ..pre };
            assert(self@ =~= post);
            assert forall|x: int, y: int|
                0 <= x < post.companies.len() && 0 <= y < post.companies.len() && x
                    != y implies #[trigger] post.companies[x].id
                != #[trigger] post.companies[y].id by {
                if x == pre.companies.len() {
                    assert(pre.companies[y].id != cm.id);
                } else if y == pre.companies.len() {
                    assert(pre.companies[x].id != cm.id);
                } else {
                    assert(pre.companies[x].id != pre.companies[y].id);
                }
            }
            lemma_wf_entities_changed(pre, post);
        }
        true
    }

    /// Inserts an employee; rejected when the id is already taken.
    pub fn add_employee(&mut self, e: Employee) -> (ok: bool)
        requires
            old(self).wf(),
        ensures
            final(self).wf(),
            ok == !has_employee(old(self)@, e.id),
            final(self)@ == if has_employee(old(self)@, e.id) {
                old(self)@
            } else {
                StoreModel { employees: old(self)@.employees.push(e@), ..old(self)@ }
            },
    {
        let mut i: usize = 0;
        #[verifier::loop_isolation(false)]
        while i < self.employees.len()
            invariant
                i <= self.employees.len(),
                forall|k: int| 0 <= k < i ==> #[trigger] self@.employees[k].id != e.id,
            decreases self.employees.len() - i,
        {
            if self.employees[i].id == e.id {
                proof {
                    assert(self@.employees[i as int].id == e.id);
                }
                return false;
            }
            i += 1;
        }
        let ghost pre = self@;
        let ghost em = e@;
        self.employees.push(e);
        proof {
            let post = StoreModel { employees: pre.employees.push(em), ..pre };
            assert(self@ =~= post);
            assert forall|x: int, y: int|
                0 <= x < post.employees.len() && 0 <= y < post.employees.len() && x
                    != y implies #[trigger] post.employees[x].id
                != #[trigger] post.employees[y].id by {
                if x == pre.employees.len() {
                    assert(pre.employees[y].id != em.id);
                } else if y == pre.employees.len() {
                    assert(pre.employees[x].id != em.id);
                } else {
                    assert(pre.employees[x].id != pre.employees[y].id);
                }
            }
            lemma_wf_entities_changed(pre, post);
        }
        true
    }

    /// Inserts a campaign; rejected when the id is already taken.
    pub fn add_campaign(&mut self, c: Campaign) -> (ok: bool)
        requires
            old(self).wf(),
        ensures
            final(self).wf(),
            ok == !has_campaign(old(self)@, c.id),
            final(self)@ == if has_campaign(old(self)@, c.id) {
                old(self)@
            } else {
                StoreModel { campaigns: old(self)@.campaigns.push(c@), ..old(self)@ }
            },
    {
        let mut i: usize = 0;
        #[verifier::loop_isolation(false)]
        while i < self.campaigns.len()
            invariant
                i <= self.campaigns.len(),
                forall|k: int| 0 <= k < i ==> #[trigger] self@.campaigns[k].id != c.id,
            decreases self.campaigns.len() - i,
        {
            if self.campaigns[i].id == c.id {
                proof {
                    assert(self@.campaigns[i as int].id == c.id);
                }
                return false;
            }
            i += 1;
        }
        let ghost pre = self@;
        let ghost cm = c@;
        self.campaigns.push(c);
        proof {
            let post = StoreModel { campaigns: pre.campaigns.push(cm), ..pre };
            assert(self@ =~= post);
            assert forall|x: int, y: int|
                0 <= x < post.campaigns.len() && 0 <= y < post.campaigns.len() && x
                    != y implies #[trigger] post.campaigns[x].id
                != #[trigger] post.campaigns[y].id by {
                if x == pre.campaigns.len() {
                    assert(pre.campaigns[y].id != cm.id);
                } else if y == pre.campaigns.len() {
                    assert(pre.campaigns[x].id != cm.id);
                } else {
                    assert(pre.campaigns[x].id != pre.campaigns[y].id);
                }
            }
            lemma_wf_entities_changed(pre, post);
        }
        true
    }

    /// Inserts a template; rejected when the id is already taken.
    pub fn add_template(&mut self, t: Template) -> (ok: bool)
        requires
            old(self).wf(),
        ensures
            final(self).wf(),
            ok == !has_template(old(self)@, t.id),
            final(self)@ == if has_template(old(self)@, t.id) {
                old(self)@
            } else {
                StoreModel { templates: old(self)@.templates.push(t@), ..old(self)@ }
            },
    {
        let mut i: usize = 0;
        #[verifier::loop_isolation(false)]
        while i < self.templates.len()
            invariant
                i <= self.templates.len(),
                forall|k: int| 0 <= k < i ==> #[trigger] self@.templates[k].id != t.id,
            decreases self.templates.len() - i,
        {
            if self.templates[i].id == t.id {
                proof {
                    assert(self@.templates[i as int].id == t.id);
                }
                return false;
            }
            i += 1;
        }
        let ghost pre = self@;
        let ghost tm = t@;
        self.templates.push(t);
        proof {
            let post = StoreModel { templates: pre.templates.push(tm), ..pre };
            assert(self@ =~= post);
            assert forall|x: int, y: int|
                0 <= x < post.templates.len() && 0 <= y < post.templates.len() && x
                    != y implies #[trigger] post.templates[x].id
                != #[trigger] post.templates[y].id by {
                if x == pre.templates.len() {
                    assert(pre.templates[y].id != tm.id);
                } else if y == pre.templates.len() {
                    assert(pre.templates[x].id != tm.id);
                } else {
                    assert(pre.templates[x].id != pre.templates[y].id);
                }
            }
            lemma_wf_entities_changed(pre, post);
        }
        true
    }

    pub fn get_campaign(&self, id: u64) -> (r: Option<&Campaign>)
        requires
            self.wf(),
        ensures
            match r {
                Some(c) => has_campaign(self@, id) && c@ == campaign_of(self@, id),
                None => !has_campaign(self@, id),
            },
    {
        let mut i: usize = 0;
        #[verifier::loop_isolation(false)]
        while i < self.campaigns.len()
            invariant
                i <= self.campaigns.len(),
                forall|k: int| 0 <= k < i ==> #[trigger] self@.campaigns[k].id != id,
            decreases self.campaigns.len() - i,
        {
            if self.campaigns[i].id == id {
                proof {
                    assert(self@.campaigns[i as int].id == id);
                    let j = choose|j: int|
                        0 <= j < self@.campaigns.len() && self@.campaigns[j].id == id;
                    assert(j == i) by {
                        if j != i {
                            assert(self@.campaigns[j].id != self@.campaigns[i as int].id);
                        }
                    }
                }
                return Some(&self.campaigns[i]);
            }
            i += 1;
        }
        None
    }

    pub fn get_template(&self, id: u64) -> (r: Option<&Template>)
        requires
            self.wf(),
        ensures
            match r {
                Some(t) => has_template(self@, id) && t@ == template_of(self@, id),
                None => !has_template(self@, id),
            },
    {
        let mut i: usize = 0;
        #[verifier::loop_isolation(false)]
        while i < self.templates.len()
            invariant
                i <= self.templates.len(),
                forall|k: int| 0 <= k < i ==> #[trigger] self@.templates[k].id != id,
            decreases self.templates.len() - i,
        {
            if self.templates[i].id == id {
                proof {
                    assert(self@.templates[i as int].id == id);
                    let j = choose|j: int|
                        0 <= j < self@.templates.len() && self@.templates[j].id == id;
                    assert(j == i) by {
                        if j != i {
                            assert(self@.templates[j].id != self@.templates[i as int].id);
                        }
                    }
                }
                return Some(&self.templates[i]);
            }
            i += 1;
        }
        None
    }

    pub fn get_employee(&self, id: u64) -> (r: Option<&Employee>)
        requires
            self.wf(),
        ensures
            match r {
                Some(e) => has_employee(self@, id) && e@ == employee_of(self@, id),
                None => !has_employee(self@, id),
            },
    {
        let mut i: usize = 0;
        #[verifier::loop_isolation(false)]
        while i < self.employees.len()
            invariant
                i <= self.employees.len(),
                forall|k: int| 0 <= k < i ==> #[trigger] self@.employees[k].id != id,
            decreases self.employees.len() - i,
        {
            if self.employees[i].id == id {
                proof {
                    assert(self@.employees[i as int].id == id);
                    let j = choose|j: int|
                        0 <= j < self@.employees.len() && self@.employees[j].id == id;
                    assert(j == i) by {
                        if j != i {
                            assert(self@.employees[j].id != self@.employees[i as int].id);
                        }
                    }
                }
                return Some(&self.employees[i]);
            }
            i += 1;
        }
        None
    }

    pub fn get_message(&self, token: u128) -> (r: Option<&SentMessage>)
        requires
            self.wf(),
        ensures
            match r {
                Some(m) => has_msg(self@, token) && m@ == msg_of(self@, token),
                None => !has_msg(self@, token),
            },
    {
        let mut i: usize = 0;
        #[verifier::loop_isolation(false)]
        while i < self.messages.len()
            invariant
                i <= self.messages.len(),
                forall|k: int| 0 <= k < i ==> #[trigger] self@.messages[k].token != token,
            decreases self.messages.len() - i,
        {
            if self.messages[i].token == token {
                proof {
                    assert(self@.messages[i as int].token == token);
                    let j = choose|j: int|
                        0 <= j < self@.messages.len() && self@.messages[j].token == token;
                    assert(j == i) by {
                        if j != i {
                            assert(self@.messages[j].token != self@.messages[i as int].token);
                        }
                    }
                }
                return Some(&self.messages[i]);
            }
            i += 1;
        }
        None
    }

    /// The ids of one company's employees, in roster order.
    pub fn employee_ids_of_company(&self, company_id: u64) -> (r: Vec<u64>)
        ensures
            r@ == ids_of(roster_of(self@, company_id)),
    {
        let mut r: Vec<u64> = Vec::new();
        let mut i: usize = 0;
        #[verifier::loop_isolation(false)]
        while i < self.employees.len()
            invariant
                i <= self.employees.len(),
                r@ == ids_of(company_filter(self@.employees.subrange(0, i as int), company_id)),
            decreases self.employees.len() - i,
        {
            let ghost prefix = self@.employees.subrange(0, i as int);
            if self.employees[i].company_id == company_id {
                r.push(self.employees[i].id);
            }
            i += 1;
            proof {
                let next = self@.employees.subrange(0, i as int);
                assert(prefix.push(self@.employees[i - 1]) =~= next);
                lemma_company_filter_push(prefix, self@.employees[i - 1], company_id);
                if self@.employees[i - 1].company_id == company_id {
                    assert(r@ =~= ids_of(company_filter(next, company_id)));
                }
            }
        }
        proof {
            assert(self@.employees.subrange(0, self@.employees.len() as int) =~= self@.employees);
        }
        r
    }

    /// Applies a partial campaign update; absent fields keep their stored
    /// values. Returns whether the id was found; an unknown id changes
    /// nothing.
    pub fn update_campaign(&mut self, id: u64, u: UpdateCampaign) -> (ok: bool)
        requires
            old(self).wf(),
        ensures
            final(self).wf(),
            ok == has_campaign(old(self)@, id),
            final(self)@ == if has_campaign(old(self)@, id) {
                StoreModel {
                    campaigns: old(self)@.campaigns.update(
                        campaign_index(old(self)@, id),
                        merged_campaign(campaign_of(old(self)@, id), u),
                    ),
                    ..old(self)@
                }
            } else {
                old(self)@
            },
    {
        let ghost pre = self@;
        let mut i: usize = 0;
        #[verifier::loop_isolation(false)]
        while i < self.campaigns.len()
            invariant
                i <= self.campaigns.len(),
                self@ == pre,
                forall|k: int| 0 <= k < i ==> #[trigger] self@.campaigns[k].id != id,
            decreases self.campaigns.len() - i,
        {
            if self.campaigns[i].id == id {
                proof {
                    assert(pre.campaigns[i as int].id == id);
                    let j = campaign_index(pre, id);
                    assert(j == i) by {
                        if j != i {
                            assert(pre.campaigns[j].id != pre.campaigns[i as int].id);
                        }
                    }
                }
                let mut c = self.campaigns.remove(i);
                proof {
                    assert(c@ == campaign_of(pre, id));
                }
                if let Some(nm) = u.name {
                    c.name = nm;
                }
                if let Some(d) = u.description {
                    c.description = Some(d);
                }
                if let Some(st) = u.status {
                    c.status = st;
                }
                let ghost cm = c@;
                self.campaigns.insert(i, c);
                proof {
                    let post = StoreModel { campaigns: pre.campaigns.update(i as int, cm), ..pre };
                    assert(self@ =~= post);
                    assert(cm == merged_campaign(campaign_of(pre, id), u));
                    assert(unique_campaign_ids(post.campaigns)) by {
                        assert forall|x: int, y: int|
                            0 <= x < post.campaigns.len() && 0 <= y < post.campaigns.len() && x
                                != y implies #[trigger] post.campaigns[x].id
                            != #[trigger] post.campaigns[y].id by {
                            assert(post.campaigns[x].id == pre.campaigns[x].id);
                            assert(post.campaigns[y].id == pre.campaigns[y].id);
                            assert(pre.campaigns[x].id != pre.campaigns[y].id);
                        }
                    }
                    lemma_wf_entities_changed(pre, post);
                }
                return true;
            }
            i += 1;
        }
        proof {
            assert(!has_campaign(pre, id));
        }
        false
    }

    /// Applies a partial company update; absent fields keep their stored
    /// values. Returns whether the id was found; an unknown id changes
    /// nothing.
    pub fn update_company(&mut self, id: u64, u: UpdateCompany) -> (ok: bool)
        requires
            old(self).wf(),
        ensures
            final(self).wf(),
            ok == has_company(old(self)@, id),
            final(self)@ == if has_company(old(self)@, id) {
                StoreModel {
                    companies: old(self)@.companies.update(
                        company_index(old(self)@, id),
                        merged_company(company_of(old(self)@, id), u),
                    ),
                    ..old(self)@
                }
            } else {
                old(self)@
            },
    {
        let ghost pre = self@;
        let mut i: usize = 0;
        #[verifier::loop_isolation(false)]
        while i < self.companies.len()
            invariant
                i <= self.companies.len(),
                self@ == pre,
                forall|k: int| 0 <= k < i ==> #[trigger] self@.companies[k].id != id,
            decreases self.companies.len() - i,
        {
            if self.companies[i].id == id {
                proof {
                    assert(pre.companies[i as int].id == id);
                    let j = company_index(pre, id);
                    assert(j == i) by {
                        if j != i {
                            assert(pre.companies[j].id != pre.companies[i as int].id);
                        }
                    }
                }
                let mut c = self.companies.remove(i);
                proof {
                    assert(c@ == company_of(pre, id));
                }
                if let Some(nm) = u.name {
                    c.name = nm;
                }
                if let Some(d) = u.domain {
                    c.domain = d;
                }
                let ghost cm = c@;
                self.companies.insert(i, c);
                proof {
                    let post = StoreModel { companies: pre.companies.update(i as int, cm), ..pre };
                    assert(self@ =~= post);
                    assert(cm == merged_company(company_of(pre, id), u));
                    assert(unique_company_ids(post.companies)) by {
                        assert forall|x: int, y: int|
                            0 <= x < post.companies.len() && 0 <= y < post.companies.len() && x
                                != y implies #[trigger] post.companies[x].id
                            != #[trigger] post.companies[y].id by {
                            assert(post.companies[x].id == pre.companies[x].id);
                            assert(post.companies[y].id == pre.companies[y].id);
                            assert(pre.companies[x].id != pre.companies[y].id);
                        }
                    }
                    lemma_wf_entities_changed(pre, post);
                }
                return true;
            }
            i += 1;
        }
        proof {
            assert(!has_company(pre, id));
        }
        false
    }

    /// Applies a partial employee update; absent fields keep their stored
    /// values. Returns whether the id was found; an unknown id changes
    /// nothing.
    pub fn update_employee(&mut self, id: u64, u: UpdateEmployee) -> (ok: bool)
        requires
            old(self).wf(),
        ensures
            final(self).wf(),
            ok == has_employee(old(self)@, id),
            final(self)@ == if has_employee(old(self)@, id) {
                StoreModel {
                    employees: old(self)@.employees.update(
                        employee_index(old(self)@, id),
                        merged_employee(employee_of(old(self)@, id), u),
                    ),
                    ..old(self)@
                }
            } else {
                old(self)@
            },
    {
        let ghost pre = self@;
        let mut i: usize = 0;
        #[verifier::loop_isolation(false)]
        while i < self.employees.len()
            invariant
                i <= self.employees.len(),
                self@ == pre,
                forall|k: int| 0 <= k < i ==> #[trigger] self@.employees[k].id != id,
            decreases self.employees.len() - i,
        {
            if self.employees[i].id == id {
                proof {
                    assert(pre.employees[i as int].id == id);
                    let j = employee_index(pre, id);
                    assert(j == i) by {
                        if j != i {
                            assert(pre.employees[j].id != pre.employees[i as int].id);
                        }
                    }
                }
                let mut c = self.employees.remove(i);
                proof {
                    assert(c@ == employee_of(pre, id));
                }
                if let Some(m) = u.email {
                    c.email = m;
                }
                if let Some(f) = u.first_name {
                    c.first_name = Some(f);
                }
                if let Some(l) = u.last_name {
                    c.last_name = Some(l);
                }
                if let Some(d) = u.department {
                    c.department = Some(d);
                }
                let ghost cm = c@;
                self.employees.insert(i, c);
                proof {
                    let post = StoreModel { employees: pre.employees.update(i as int, cm), ..pre };
                    assert(self@ =~= post);
                    assert(cm == merged_employee(employee_of(pre, id), u));
                    assert(unique_employee_ids(post.employees)) by {
                        assert forall|x: int, y: int|
                            0 <= x < post.employees.len() && 0 <= y < post.employees.len() && x
                                != y implies #[trigger] post.employees[x].id
                            != #[trigger] post.employees[y].id by {
                            assert(post.employees[x].id == pre.employees[x].id);
                            assert(post.employees[y].id == pre.employees[y].id);
                            assert(pre.employees[x].id != pre.employees[y].id);
                        }
                    }
                    lemma_wf_entities_changed(pre, post);
                }
                return true;
            }
            i += 1;
        }
        proof {
            assert(!has_employee(pre, id));
        }
        false
    }

    /// Applies a partial template update; absent fields keep their stored
    /// values. Returns whether the id was found; an unknown id changes
    /// nothing.
    pub fn update_template(&mut self, id: u64, u: UpdateTemplate) -> (ok: bool)
        requires
            old(self).wf(),
        ensures
            final(self).wf(),
            ok == has_template(old(self)@, id),
            final(self)@ == if has_template(old(self)@, id) {
                StoreModel {
                    templates: old(self)@.templates.update(
                        template_index(old(self)@, id),
                        merged_template(template_of(old(self)@, id), u),
                    ),
                    ..old(self)@
                }
            } else {
                old(self)@
            },
    {
        let ghost pre = self@;
        let mut i: usize = 0;
        #[verifier::loop_isolation(false)]
        while i < self.templates.len()
            invariant
                i <= self.templates.len(),
                self@ == pre,
                forall|k: int| 0 <= k < i ==> #[trigger] self@.templates[k].id != id,
            decreases self.templates.len() - i,
        {
            if self.templates[i].id == id {
                proof {
                    assert(pre.templates[i as int].id == id);
                    let j = template_index(pre, id);
                    assert(j == i) by {
                        if j != i {
                            assert(pre.templates[j].id != pre.templates[i as int].id);
                        }
                    }
                }
                let mut c = self.templates.remove(i);
                proof {
                    assert(c@ == template_of(pre, id));
                }
                if let Some(nm) = u.name {
                    c.name = nm;
                }
                if let Some(sj) = u.subject {
                    c.subject = sj;
                }
                if let Some(b) = u.body {
                    c.body = b;
                }
                if let Some(tt) = u.template_type {
                    c.template_type = Some(tt);
                }
                let ghost cm = c@;
                self.templates.insert(i, c);
                proof {
                    let post = StoreModel { templates: pre.templates.update(i as int, cm), ..pre };
                    assert(self@ =~= post);
                    assert(cm == merged_template(template_of(pre, id), u));
                    assert(unique_template_ids(post.templates)) by {
                        assert forall|x: int, y: int|
                            0 <= x < post.templates.len() && 0 <= y < post.templates.len() && x
                                != y implies #[trigger] post.templates[x].id
                            != #[trigger] post.templates[y].id by {
                            assert(post.templates[x].id == pre.templates[x].id);
                            assert(post.templates[y].id == pre.templates[y].id);
                            assert(pre.templates[x].id != pre.templates[y].id);
                        }
                    }
                    lemma_wf_entities_changed(pre, post);
                }
                return true;
            }
            i += 1;
        }
        proof {
            assert(!has_template(pre, id));
        }
        false
    }
}

} // verus!
