//! The analytics aggregator. For one campaign it rolls the sent messages and
//! recorded interactions into campaign totals and a per-department
//! breakdown, with rates in tenths of a percent computed as
//! `1000 * part / sent` and exactly zero when nothing was sent.

use vstd::prelude::*;

use vstd::arithmetic::div_mod::{lemma_div_is_ordered, lemma_div_multiples_vanish};
use vstd::arithmetic::mul::lemma_mul_inequality;

use crate::domain::{Employee, EmployeeModel, InteractionKind, InteractionModel, SentMessageModel};
use crate::store::{
    campaign_of, employee_of, has_campaign, has_employee, opened_in, Store, StoreModel,
};

verus! {

/// Whether a `Clicked` interaction for this token stands in the table.
pub open spec fn clicked_in(is: Seq<InteractionModel>, token: u128) -> bool {
    exists|i: int|
        0 <= i < is.len() && is[i].token == token && is[i].kind == InteractionKind::Clicked
}

/// The department bucket an employee falls under: the recorded department,
/// or the literal "Unknown" bucket.
pub open spec fn dept_key(e: EmployeeModel) -> Seq<char> {
    match e.department {
        Some(d) => d,
        None => "Unknown"@,
    }
}

/// The campaign's sent messages, in table order.
pub open spec fn campaign_messages(ms: Seq<SentMessageModel>, campaign_id: u64) -> Seq<
    SentMessageModel,
> {
    ms.filter(|m: SentMessageModel| m.campaign_id == campaign_id)
}

/// Whether a message belongs to the campaign and to a company employee of
/// department `d`.
pub open spec fn dept_pred(
    s: StoreModel,
    campaign_id: u64,
    company_id: u64,
    d: Seq<char>,
    m: SentMessageModel,
) -> bool {
    &&& m.campaign_id == campaign_id
    &&& has_employee(s, m.employee_id)
    &&& employee_of(s, m.employee_id).company_id == company_id
    &&& dept_key(employee_of(s, m.employee_id)) == d
}

/// The campaign's messages attributed to department `d`.
pub open spec fn dept_messages(
    s: StoreModel,
    campaign_id: u64,
    company_id: u64,
    d: Seq<char>,
) -> Seq<SentMessageModel> {
    s.messages.filter(|m: SentMessageModel| dept_pred(s, campaign_id, company_id, d, m))
}

/// The company's employees in department `d`.
pub open spec fn dept_employees(es: Seq<EmployeeModel>, company_id: u64, d: Seq<char>) -> Seq<
    EmployeeModel,
> {
    es.filter(|e: EmployeeModel| e.company_id == company_id && dept_key(e) == d)
}

/// The distinct department buckets of the company's employees, in order of
/// first appearance in the table.
pub open spec fn dept_keys(es: Seq<EmployeeModel>, company_id: u64) -> Seq<Seq<char>>
    decreases es.len(),
{
    if es.len() == 0 {
        Seq::empty()
    } else {
        let prev = dept_keys(es.drop_last(), company_id);
        if es.last().company_id != company_id {
            prev
        } else if prev.contains(dept_key(es.last())) {
            prev
        } else {
            prev.push(dept_key(es.last()))
        }
    }
}

/// How many of the messages have at least one recorded open.
pub open spec fn count_opened(is: Seq<InteractionModel>, ms: Seq<SentMessageModel>) -> int
    decreases ms.len(),
{
    if ms.len() == 0 {
        0
    } else {
        count_opened(is, ms.drop_last()) + if opened_in(is, ms.last().token) {
            1int
        } else {
            0int
        }
    }
}

/// How many of the messages have at least one recorded click.
pub open spec fn count_clicked(is: Seq<InteractionModel>, ms: Seq<SentMessageModel>) -> int
    decreases ms.len(),
{
    if ms.len() == 0 {
        0
    } else {
        count_clicked(is, ms.drop_last()) + if clicked_in(is, ms.last().token) {
            1int
        } else {
            0int
        }
    }
}

pub proof fn lemma_count_opened_le(is: Seq<InteractionModel>, ms: Seq<SentMessageModel>)
    ensures
        0 <= count_opened(is, ms) <= ms.len(),
    decreases ms.len(),
{
    if ms.len() > 0 {
        lemma_count_opened_le(is, ms.drop_last());
    }
}

pub proof fn lemma_count_clicked_le(is: Seq<InteractionModel>, ms: Seq<SentMessageModel>)
    ensures
        0 <= count_clicked(is, ms) <= ms.len(),
    decreases ms.len(),
{
    if ms.len() > 0 {
        lemma_count_clicked_le(is, ms.drop_last());
    }
}

/// A rate in tenths of a percent: `1000 * part / total`, and exactly zero
/// when the total is zero — no division by zero, ever.
pub open spec fn rate_tenths(part: int, total: int) -> int {
    if total == 0 {
        0
    } else {
        part * 1000 / total
    }
}

/// A rate over a part of a whole lies between zero and a thousand tenths.
pub proof fn lemma_rate_tenths_bound(part: int, total: int)
    requires
        0 <= part <= total,
    ensures
        0 <= rate_tenths(part, total) <= 1000,
{
    if total != 0 {
        lemma_mul_inequality(part, total, 1000);
        lemma_div_is_ordered(0, part * 1000, total);
        lemma_div_is_ordered(part * 1000, total * 1000, total);
        lemma_div_multiples_vanish(1000, total);
        assert(total * 1000 == 1000 * total) by (nonlinear_arith);
        assert(0int / total == 0) by {
            lemma_div_multiples_vanish(0, total);
        }
    }
}

/// One department's rollup row.
pub struct DepartmentStats {
    pub department: String,
    pub employee_count: u64,
    pub emails_sent: u64,
    pub emails_opened: u64,
    pub links_clicked: u64,
    pub open_rate_tenths: u64,
    pub click_rate_tenths: u64,
}

pub struct DepartmentStatsModel {
    pub department: Seq<char>,
    pub employee_count: u64,
    pub emails_sent: u64,
    pub emails_opened: u64,
    pub links_clicked: u64,
    pub open_rate_tenths: u64,
    pub click_rate_tenths: u64,
}

impl View for DepartmentStats {
    type V = DepartmentStatsModel;

    open spec fn view(&self) -> DepartmentStatsModel {
        DepartmentStatsModel {
            department: self.department@,
            employee_count: self.employee_count,
            emails_sent: self.emails_sent,
            emails_opened: self.emails_opened,
            links_clicked: self.links_clicked,
            open_rate_tenths: self.open_rate_tenths,
            click_rate_tenths: self.click_rate_tenths,
        }
    }
}

pub open spec fn dept_views(rows: Seq<DepartmentStats>) -> Seq<DepartmentStatsModel> {
    rows.map_values(|r: DepartmentStats| r@)
}

pub open spec fn string_views(names: Seq<String>) -> Seq<Seq<char>> {
    names.map_values(|s: String| s@)
}

/// The rollup row of one department.
pub open spec fn dept_row(
    s: StoreModel,
    campaign_id: u64,
    company_id: u64,
    d: Seq<char>,
) -> DepartmentStatsModel {
    let msgs = dept_messages(s, campaign_id, company_id, d);
    DepartmentStatsModel {
        department: d,
        employee_count: dept_employees(s.employees, company_id, d).len() as u64,
        emails_sent: msgs.len() as u64,
        emails_opened: count_opened(s.interactions, msgs) as u64,
        links_clicked: count_clicked(s.interactions, msgs) as u64,
        open_rate_tenths: rate_tenths(count_opened(s.interactions, msgs), msgs.len() as int) as u64,
        click_rate_tenths: rate_tenths(
            count_clicked(s.interactions, msgs),
            msgs.len() as int,
        ) as u64,
    }
}

pub open spec fn dept_rows(
    s: StoreModel,
    campaign_id: u64,
    company_id: u64,
    ds: Seq<Seq<char>>,
) -> Seq<DepartmentStatsModel> {
    ds.map_values(|d: Seq<char>| dept_row(s, campaign_id, company_id, d))
}

/// Stable insertion into a row list sorted by click count descending: the
/// row goes after every row with at least as many clicks.
pub open spec fn insert_row_desc(
    sorted: Seq<DepartmentStatsModel>,
    row: DepartmentStatsModel,
) -> Seq<DepartmentStatsModel>
    decreases sorted.len(),
{
    if sorted.len() > 0 && sorted.last().links_clicked < row.links_clicked {
        insert_row_desc(sorted.drop_last(), row).push(sorted.last())
    } else {
        sorted.push(row)
    }
}

/// The department rows ordered by click count descending, rows with equal
/// click counts kept in their first-appearance order.
pub open spec fn sort_rows_desc(rows: Seq<DepartmentStatsModel>) -> Seq<DepartmentStatsModel>
    decreases rows.len(),
{
    if rows.len() == 0 {
        Seq::empty()
    } else {
        insert_row_desc(sort_rows_desc(rows.drop_last()), rows.last())
    }
}

/// Inserting at the position found by scanning from the right realizes the
/// stable descending insertion.
proof fn lemma_insert_row_desc_at(s: Seq<DepartmentStatsModel>, row: DepartmentStatsModel, pos: int)
    requires
        0 <= pos <= s.len(),
        forall|k: int| pos <= k < s.len() ==> #[trigger] s[k].links_clicked < row.links_clicked,
        pos > 0 ==> !(s[pos - 1].links_clicked < row.links_clicked),
    ensures
        insert_row_desc(s, row) == s.subrange(0, pos) + seq![row] + s.subrange(
            pos,
            s.len() as int,
        ),
    decreases s.len(),
{
    if s.len() > 0 && s.last().links_clicked < row.links_clicked {
        assert(pos < s.len());
        let dl = s.drop_last();
        assert(forall|k: int|
            pos <= k < dl.len() ==> #[trigger] dl[k].links_clicked < row.links_clicked);
        lemma_insert_row_desc_at(dl, row, pos);
        assert(insert_row_desc(s, row) =~= s.subrange(0, pos) + seq![row] + s.subrange(
            pos,
            s.len() as int,
        ));
    } else {
        assert(pos == s.len());
        assert(insert_row_desc(s, row) =~= s.subrange(0, pos) + seq![row] + s.subrange(
            pos,
            s.len() as int,
        ));
    }
}

/// The campaign rollup: totals, rates in tenths of a percent, and the
/// department breakdown ordered by click count descending.
pub struct CampaignAnalytics {
    pub campaign_id: u64,
    pub campaign_name: String,
    pub total_sent: u64,
    pub total_opened: u64,
    pub total_clicked: u64,
    pub open_rate_tenths: u64,
    pub click_rate_tenths: u64,
    pub departments: Vec<DepartmentStats>,
}

#[derive(Clone, Copy, Debug, PartialEq, Eq, Structural)]
pub enum AnalyticsError {
    CampaignNotFound,
}

fn rate_u64(part: u64, total: u64) -> (r: u64)
    requires
        part <= total,
    ensures
        r as int == rate_tenths(part as int, total as int),
{
    if total == 0 {
        0
    } else {
        proof {
            lemma_rate_tenths_bound(part as int, total as int);
        }
        (((part as u128) * 1000) / (total as u128)) as u64
    }
}

/// The department bucket of one employee, as a string.
fn dept_name(e: &Employee) -> (r: String)
    ensures
        r@ == dept_key(e@),
{
    match &e.department {
        Some(d) => d.clone(),
        None => String::from_str("Unknown"),
    }
}

/// Whether one of the names equals `key`.
fn contains_name(names: &Vec<String>, key: &String) -> (r: bool)
    ensures
        r == string_views(names@).contains(key@),
{
    let mut i: usize = 0;
    #[verifier::loop_isolation(false)]
    while i < names.len()
        invariant
            i <= names.len(),
            forall|k: int| 0 <= k < i ==> string_views(names@)[k] != key@,
        decreases names.len() - i,
    {
        if names[i].eq(key) {
            proof {
                assert(string_views(names@)[i as int] == key@);
            }
            return true;
        }
        i += 1;
    }
    proof {
        if string_views(names@).contains(key@) {
            let j = choose|j: int|
                0 <= j < string_views(names@).len() && string_views(names@)[j] == key@;
            assert(string_views(names@)[j] != key@);
        }
    }
    false
}

/// Inserts a row into a list sorted by click count descending, after every
/// row with at least as many clicks.
fn insert_sorted(rows: &mut Vec<DepartmentStats>, row: DepartmentStats)
    ensures
        dept_views(final(rows)@) == insert_row_desc(dept_views(old(rows)@), row@),
{
    let ghost pre = dept_views(rows@);
    let mut pos = rows.len();
    #[verifier::loop_isolation(false)]
    while pos > 0 && rows[pos - 1].links_clicked < row.links_clicked
        invariant
            pos <= rows.len(),
            forall|k: int|
                pos <= k < rows@.len() ==> #[trigger] dept_views(rows@)[k].links_clicked
                    < row.links_clicked,
        decreases pos,
    {
        proof {
            assert(dept_views(rows@)[pos - 1].links_clicked < row@.links_clicked);
        }
        pos -= 1;
    }
    let ghost p = pos as int;
    rows.insert(pos, row);
    proof {
        lemma_insert_row_desc_at(pre, row@, p);
        assert(dept_views(rows@) =~= pre.subrange(0, p) + seq![row@] + pre.subrange(
            p,
            pre.len() as int,
        ));
    }
}

impl Store {
    /// Whether a `Clicked` interaction already stands for this token.
    fn clicked_exists(&self, token: u128) -> (r: bool)
        ensures
            r == clicked_in(self@.interactions, token),
    {
        let mut i: usize = 0;
        #[verifier::loop_isolation(false)]
        while i < self.interactions.len()
            invariant
                i <= self.interactions.len(),
                forall|k: int|
                    0 <= k < i ==> !(#[trigger] self@.interactions[k].token == token
                        && self@.interactions[k].kind == InteractionKind::Clicked),
            decreases self.interactions.len() - i,
        {
            if self.interactions[i].token == token && matches!(
                self.interactions[i].kind,
                InteractionKind::Clicked,
            ) {
                proof {
                    assert(self@.interactions[i as int].token == token
                        && self@.interactions[i as int].kind == InteractionKind::Clicked);
                }
                return true;
            }
            i += 1;
        }
        false
    }

    /// Rolls one campaign's messages and interactions into totals and a
    /// per-department breakdown. A campaign with nothing sent yields a fully
    /// populated zero report; an unknown campaign is the one error.
    pub fn get_campaign_analytics(&self, campaign_id: u64) -> (r: Result<
        CampaignAnalytics,
        AnalyticsError,
    >)
        requires
            self.wf(),
        ensures
            match r {
                Ok(a) => has_campaign(self@, campaign_id) && ({
                    let msgs = campaign_messages(self@.messages, campaign_id);
                    let company_id = campaign_of(self@, campaign_id).company_id;
                    &&& a.campaign_id == campaign_id
                    &&& a.campaign_name@ == campaign_of(self@, campaign_id).name
                    &&& a.total_sent == msgs.len()
                    &&& a.total_opened == count_opened(self@.interactions, msgs)
                    &&& a.total_clicked == count_clicked(self@.interactions, msgs)
                    &&& a.open_rate_tenths == rate_tenths(
                        count_opened(self@.interactions, msgs),
                        msgs.len() as int,
                    )
                    &&& a.click_rate_tenths == rate_tenths(
                        count_clicked(self@.interactions, msgs),
                        msgs.len() as int,
                    )
                    &&& a.total_sent == 0 ==> a.open_rate_tenths == 0 && a.click_rate_tenths == 0
                    &&& dept_views(a.departments@) == sort_rows_desc(
                        dept_rows(
                            self@,
                            campaign_id,
                            company_id,
                            dept_keys(self@.employees, company_id),
                        ),
                    )
                }),
                Err(e) => !has_campaign(self@, campaign_id),
            },
    {
        let (campaign_name, company_id) = match self.get_campaign(campaign_id) {
            Some(c) => (c.name.clone(), c.company_id),
            None => {
                return Err(AnalyticsError::CampaignNotFound);
            },
        };
        let ghost s = self@;

        // Campaign totals.
        let mut total_sent: u64 = 0;
        let mut total_opened: u64 = 0;
        let mut total_clicked: u64 = 0;
        let mut i: usize = 0;
        let n = self.messages.len();
        proof {
            assert(s.messages.subrange(0, 0) =~= Seq::<SentMessageModel>::empty());
            broadcast use Seq::lemma_filter_len;

            assert(campaign_messages(s.messages.subrange(0, 0), campaign_id).len() == 0);
        }
        #[verifier::loop_isolation(false)]
        while i < n
            invariant
                i <= n,
                n == s.messages.len(),
                ({
                    let pf = campaign_messages(s.messages.subrange(0, i as int), campaign_id);
                    &&& total_sent == pf.len()
                    &&& total_opened == count_opened(s.interactions, pf)
                    &&& total_clicked == count_clicked(s.interactions, pf)
                }),
            decreases n - i,
        {
            let ghost prefix = s.messages.subrange(0, i as int);
            let ghost pf = campaign_messages(prefix, campaign_id);
            proof {
                broadcast use Seq::lemma_filter_len, Seq::lemma_filter_push;

                lemma_count_opened_le(s.interactions, pf);
                lemma_count_clicked_le(s.interactions, pf);
            }
            if self.messages[i].campaign_id == campaign_id {
                total_sent += 1;
                if self.opened_exists(self.messages[i].token) {
                    total_opened += 1;
                }
                if self.clicked_exists(self.messages[i].token) {
                    total_clicked += 1;
                }
            }
            i += 1;
            proof {
                broadcast use Seq::lemma_filter_push;

                let next = s.messages.subrange(0, i as int);
                assert(next =~= prefix.push(s.messages[i - 1]));
                let nf = campaign_messages(next, campaign_id);
                if s.messages[i - 1].campaign_id == campaign_id {
                    assert(nf == pf.push(s.messages[i - 1]));
                    assert(nf.drop_last() =~= pf);
                    assert(count_opened(s.interactions, nf) == count_opened(s.interactions, pf)
                        + if opened_in(s.interactions, s.messages[i - 1].token) {
                        1int
                    } else {
                        0int
                    });
                    assert(count_clicked(s.interactions, nf) == count_clicked(s.interactions, pf)
                        + if clicked_in(s.interactions, s.messages[i - 1].token) {
                        1int
                    } else {
                        0int
                    });
                } else {
                    assert(nf == pf);
                }
            }
        }
        proof {
            assert(s.messages.subrange(0, s.messages.len() as int) =~= s.messages);
            lemma_count_opened_le(s.interactions, campaign_messages(s.messages, campaign_id));
            lemma_count_clicked_le(s.interactions, campaign_messages(s.messages, campaign_id));
        }
        let open_rate_tenths = rate_u64(total_opened, total_sent);
        let click_rate_tenths = rate_u64(total_clicked, total_sent);

        // The department buckets, in first-appearance order.
        let mut names: Vec<String> = Vec::new();
        let mut i: usize = 0;
        let en = self.employees.len();
        proof {
            assert(s.employees.subrange(0, 0) =~= Seq::<EmployeeModel>::empty());
        }
        #[verifier::loop_isolation(false)]
        while i < en
            invariant
                i <= en,
                en == s.employees.len(),
                string_views(names@) == dept_keys(s.employees.subrange(0, i as int), company_id),
            decreases en - i,
        {
            let ghost prefix = s.employees.subrange(0, i as int);
            if self.employees[i].company_id == company_id {
                let key = dept_name(&self.employees[i]);
                if !contains_name(&names, &key) {
                    let ghost pre_names = names@;
                    names.push(key);
                    proof {
                        assert(string_views(names@) =~= string_views(pre_names).push(
                            dept_key(s.employees[i as int]),
                        ));
                    }
                }
            }
            i += 1;
            proof {
                let next = s.employees.subrange(0, i as int);
                assert(next.drop_last() =~= prefix);
                assert(next.last() == s.employees[i - 1]);
            }
        }
        proof {
            assert(s.employees.subrange(0, s.employees.len() as int) =~= s.employees);
        }

        // One rollup row per bucket, kept sorted by click count descending.
        let mut rows: Vec<DepartmentStats> = Vec::new();
        let ghost all_keys = dept_keys(s.employees, company_id);
        let mut d: usize = 0;
        proof {
            assert(all_keys.subrange(0, 0) =~= Seq::<Seq<char>>::empty());
            assert(dept_views(rows@) =~= sort_rows_desc(
                dept_rows(s, campaign_id, company_id, all_keys.subrange(0, 0)),
            ));
        }
        #[verifier::loop_isolation(false)]
        while d < names.len()
            invariant
                d <= names@.len(),
                string_views(names@) == all_keys,
                dept_views(rows@) == sort_rows_desc(
                    dept_rows(s, campaign_id, company_id, all_keys.subrange(0, d as int)),
                ),
            decreases names@.len() - d,
        {
            let ghost key_spec = all_keys[d as int];

            // Headcount of the bucket.
            let mut emp_cnt: u64 = 0;
            let mut j: usize = 0;
            proof {
                assert(s.employees.subrange(0, 0) =~= Seq::<EmployeeModel>::empty());
                broadcast use Seq::lemma_filter_len;

            }
            #[verifier::loop_isolation(false)]
            while j < en
                invariant
                    j <= en,
                    en == s.employees.len(),
                    d < names@.len(),
                    string_views(names@) == all_keys,
                    emp_cnt == dept_employees(
                        s.employees.subrange(0, j as int),
                        company_id,
                        key_spec,
                    ).len(),
                decreases en - j,
            {
                let ghost prefix = s.employees.subrange(0, j as int);
                proof {
                    broadcast use Seq::lemma_filter_len, Seq::lemma_filter_push;

                }
                if self.employees[j].company_id == company_id {
                    let k = dept_name(&self.employees[j]);
                    if k.eq(&names[d]) {
                        emp_cnt += 1;
                    }
                }
                j += 1;
                proof {
                    broadcast use Seq::lemma_filter_push;

                    let next = s.employees.subrange(0, j as int);
                    assert(next =~= prefix.push(s.employees[j - 1]));
                }
            }
            proof {
                assert(s.employees.subrange(0, s.employees.len() as int) =~= s.employees);
            }

            // Message tallies of the bucket.
            let mut sent: u64 = 0;
            let mut opened: u64 = 0;
            let mut clicked: u64 = 0;
            let mut j: usize = 0;
            proof {
                assert(s.messages.subrange(0, 0) =~= Seq::<SentMessageModel>::empty());
                broadcast use Seq::lemma_filter_len;

            }
            #[verifier::loop_isolation(false)]
            while j < n
                invariant
                    j <= n,
                    n == s.messages.len(),
                    d < names@.len(),
                    string_views(names@) == all_keys,
                    ({
                        let pf = s.messages.subrange(0, j as int).filter(
                            |m: SentMessageModel|
                                dept_pred(s, campaign_id, company_id, key_spec, m),
                        );
                        &&& sent == pf.len()
                        &&& opened == count_opened(s.interactions, pf)
                        &&& clicked == count_clicked(s.interactions, pf)
                    }),
                decreases n - j,
            {
                let ghost pred = |m: SentMessageModel|
                    dept_pred(s, campaign_id, company_id, key_spec, m);
                let ghost prefix = s.messages.subrange(0, j as int);
                let ghost pf = prefix.filter(pred);
                proof {
                    broadcast use Seq::lemma_filter_len, Seq::lemma_filter_push;

                    lemma_count_opened_le(s.interactions, pf);
                    lemma_count_clicked_le(s.interactions, pf);
                }
                let mut matches_bucket = false;
                if self.messages[j].campaign_id == campaign_id {
                    match self.get_employee(self.messages[j].employee_id) {
                        Some(e) => {
                            if e.company_id == company_id {
                                let k = dept_name(e);
                                if k.eq(&names[d]) {
                                    matches_bucket = true;
                                }
                            }
                        },
                        None => {},
                    }
                }
                proof {
                    assert(matches_bucket == dept_pred(
                        s,
                        campaign_id,
                        company_id,
                        key_spec,
                        s.messages[j as int],
                    ));
                }
                if matches_bucket {
                    sent += 1;
                    if self.opened_exists(self.messages[j].token) {
                        opened += 1;
                    }
                    if self.clicked_exists(self.messages[j].token) {
                        clicked += 1;
                    }
                }
                j += 1;
                proof {
                    broadcast use Seq::lemma_filter_push;

                    let next = s.messages.subrange(0, j as int);
                    assert(next =~= prefix.push(s.messages[j - 1]));
                    let nf = next.filter(pred);
                    if dept_pred(s, campaign_id, company_id, key_spec, s.messages[j - 1]) {
                        assert(nf == pf.push(s.messages[j - 1]));
                        assert(nf.drop_last() =~= pf);
                        assert(count_opened(s.interactions, nf) == count_opened(s.interactions, pf)
                            + if opened_in(s.interactions, s.messages[j - 1].token) {
                            1int
                        } else {
                            0int
                        });
                        assert(count_clicked(s.interactions, nf) == count_clicked(
                            s.interactions,
                            pf,
                        ) + if clicked_in(s.interactions, s.messages[j - 1].token) {
                            1int
                        } else {
                            0int
                        });
                    } else {
                        assert(nf == pf);
                    }
                }
            }
            proof {
                assert(s.messages.subrange(0, s.messages.len() as int) =~= s.messages);
                lemma_count_opened_le(
                    s.interactions,
                    dept_messages(s, campaign_id, company_id, key_spec),
                );
                lemma_count_clicked_le(
                    s.interactions,
                    dept_messages(s, campaign_id, company_id, key_spec),
                );
            }
            let dep_open_rate = rate_u64(opened, sent);
            let dep_click_rate = rate_u64(clicked, sent);
            let row = DepartmentStats {
                department: names[d].clone(),
                employee_count: emp_cnt,
                emails_sent: sent,
                emails_opened: opened,
                links_clicked: clicked,
                open_rate_tenths: dep_open_rate,
                click_rate_tenths: dep_click_rate,
            };
            proof {
                assert(row@ == dept_row(s, campaign_id, company_id, key_spec));
            }
            let ghost pre_rows = dept_views(rows@);
            insert_sorted(&mut rows, row);
            d += 1;
            proof {
                let next_keys = all_keys.subrange(0, d as int);
                assert(next_keys.drop_last() =~= all_keys.subrange(0, d - 1));
                assert(next_keys.last() == key_spec);
                let next_rows = dept_rows(s, campaign_id, company_id, next_keys);
                assert(next_rows.drop_last() =~= dept_rows(
                    s,
                    campaign_id,
                    company_id,
                    all_keys.subrange(0, d - 1),
                ));
                assert(next_rows.last() == dept_row(s, campaign_id, company_id, key_spec));
                assert(sort_rows_desc(next_rows) == insert_row_desc(
                    sort_rows_desc(next_rows.drop_last()),
                    next_rows.last(),
                ));
                assert(dept_views(rows@) == sort_rows_desc(next_rows));
            }
        }
        proof {
            assert(all_keys.subrange(0, all_keys.len() as int) =~= all_keys);
        }
        Ok(
            CampaignAnalytics {
                campaign_id,
                campaign_name,
                total_sent,
                total_opened,
                total_clicked,
                open_rate_tenths,
                click_rate_tenths,
                departments: rows,
            },
        )
    }
}

} // verus!
