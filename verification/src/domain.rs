//! The data model: companies, employees, campaigns, templates, and the three
//! tracking tables (sent messages, tracked links, interactions), together
//! with the mathematical model of each row type.

use vstd::prelude::*;

verus! {

/// Lifecycle of a campaign. Dispatch moves a draft campaign to active on its
/// first pass; completion is triggered outside this engine.
#[derive(Clone, Copy, Debug, PartialEq, Eq, Structural)]
pub enum CampaignStatus {
    Draft,
    Active,
    Completed,
}

/// A recorded recipient action against a sent message.
#[derive(Clone, Copy, Debug, PartialEq, Eq, Structural)]
pub enum InteractionKind {
    Opened,
    Clicked,
}

pub struct Company {
    pub id: u64,
    pub name: String,
    pub domain: String,
    pub created_at: i64,
}

pub struct Employee {
    pub id: u64,
    pub company_id: u64,
    pub email: String,
    pub first_name: Option<String>,
    pub last_name: Option<String>,
    pub department: Option<String>,
    pub created_at: i64,
}

pub struct Campaign {
    pub id: u64,
    pub company_id: u64,
    pub name: String,
    pub description: Option<String>,
    pub status: CampaignStatus,
    pub created_at: i64,
    pub started_at: Option<i64>,
    pub completed_at: Option<i64>,
}

pub struct Template {
    pub id: u64,
    pub name: String,
    pub subject: String,
    pub body: Vec<u8>,
    pub template_type: Option<String>,
    pub is_public: bool,
    pub company_id: Option<u64>,
    pub created_at: i64,
}

/// The durable record of one attempted delivery. The tracking token is the
/// sole key correlating later interactions back to this message; `body` is
/// the exact content handed to the transport (links rewritten, pixel added).
pub struct SentMessage {
    pub token: u128,
    pub campaign_id: u64,
    pub employee_id: u64,
    pub template_id: u64,
    pub subject: String,
    pub body: Vec<u8>,
    pub created_at: i64,
}

/// One rewritten hyperlink instance: the `index`-th anchor of the message
/// with tracking token `token`, mapping back to its original destination.
pub struct TrackedLink {
    pub token: u128,
    pub index: usize,
    pub url: Vec<u8>,
}

/// A recorded open or click against the message with tracking token `token`.
pub struct Interaction {
    pub token: u128,
    pub kind: InteractionKind,
    pub link_index: Option<usize>,
    pub created_at: i64,
}

// Mathematical models of the row types: text fields become sequences.

pub struct CompanyModel {
    pub id: u64,
    pub name: Seq<char>,
    pub domain: Seq<char>,
    pub created_at: i64,
}

pub struct EmployeeModel {
    pub id: u64,
    pub company_id: u64,
    pub email: Seq<char>,
    pub first_name: Option<Seq<char>>,
    pub last_name: Option<Seq<char>>,
    pub department: Option<Seq<char>>,
    pub created_at: i64,
}

pub struct CampaignModel {
    pub id: u64,
    pub company_id: u64,
    pub name: Seq<char>,
    pub description: Option<Seq<char>>,
    pub status: CampaignStatus,
    pub created_at: i64,
    pub started_at: Option<i64>,
    pub completed_at: Option<i64>,
}

pub struct TemplateModel {
    pub id: u64,
    pub name: Seq<char>,
    pub subject: Seq<char>,
    pub body: Seq<u8>,
    pub template_type: Option<Seq<char>>,
    pub is_public: bool,
    pub company_id: Option<u64>,
    pub created_at: i64,
}

pub struct SentMessageModel {
    pub token: u128,
    pub campaign_id: u64,
    pub employee_id: u64,
    pub template_id: u64,
    pub subject: Seq<char>,
    pub body: Seq<u8>,
    pub created_at: i64,
}

pub struct TrackedLinkModel {
    pub token: u128,
    pub index: usize,
    pub url: Seq<u8>,
}

pub struct InteractionModel {
    pub token: u128,
    pub kind: InteractionKind,
    pub link_index: Option<usize>,
    pub created_at: i64,
}

impl View for Company {
    type V = CompanyModel;

    open spec fn view(&self) -> CompanyModel {
        CompanyModel {
            id: self.id,
            name: self.name@,
            domain: self.domain@,
            created_at: self.created_at,
        }
    }
}

impl View for Employee {
    type V = EmployeeModel;

    open spec fn view(&self) -> EmployeeModel {
        EmployeeModel {
            id: self.id,
            company_id: self.company_id,
            email: self.email@,
            first_name: self.first_name.deep_view(),
            last_name: self.last_name.deep_view(),
            department: self.department.deep_view(),
            created_at: self.created_at,
        }
    }
}

impl View for Campaign {
    type V = CampaignModel;

    open spec fn view(&self) -> CampaignModel {
        CampaignModel {
            id: self.id,
            company_id: self.company_id,
            name: self.name@,
            description: self.description.deep_view(),
            status: self.status,
            created_at: self.created_at,
            started_at: self.started_at,
            completed_at: self.completed_at,
        }
    }
}

impl View for Template {
    type V = TemplateModel;

    open spec fn view(&self) -> TemplateModel {
        TemplateModel {
            id: self.id,
            name: self.name@,
            subject: self.subject@,
            body: self.body@,
            template_type: self.template_type.deep_view(),
            is_public: self.is_public,
            company_id: self.company_id,
            created_at: self.created_at,
        }
    }
}

impl View for SentMessage {
    type V = SentMessageModel;

    open spec fn view(&self) -> SentMessageModel {
        SentMessageModel {
            token: self.token,
            campaign_id: self.campaign_id,
            employee_id: self.employee_id,
            template_id: self.template_id,
            subject: self.subject@,
            body: self.body@,
            created_at: self.created_at,
        }
    }
}

impl View for TrackedLink {
    type V = TrackedLinkModel;

    open spec fn view(&self) -> TrackedLinkModel {
        TrackedLinkModel { token: self.token, index: self.index, url: self.url@ }
    }
}

impl View for Interaction {
    type V = InteractionModel;

    open spec fn view(&self) -> InteractionModel {
        InteractionModel {
            token: self.token,
            kind: self.kind,
            link_index: self.link_index,
            created_at: self.created_at,
        }
    }
}

/// What a caller supplies to create a company.
pub struct CreateCompany {
    pub name: String,
    pub domain: String,
}

/// What a caller supplies to create a campaign.
pub struct CreateCampaign {
    pub company_id: u64,
    pub name: String,
    pub description: Option<String>,
}

/// What a caller supplies to create an employee.
pub struct CreateEmployee {
    pub company_id: u64,
    pub email: String,
    pub first_name: Option<String>,
    pub last_name: Option<String>,
    pub department: Option<String>,
}

/// What a caller supplies to create a template.
pub struct CreateTemplate {
    pub name: String,
    pub subject: String,
    pub body: Vec<u8>,
    pub template_type: Option<String>,
    pub is_public: Option<bool>,
    pub company_id: Option<u64>,
}

/// A partial campaign update: present fields replace the stored ones.
pub struct UpdateCampaign {
    pub name: Option<String>,
    pub description: Option<String>,
    pub status: Option<CampaignStatus>,
}

/// A partial company update: present fields replace the stored ones.
pub struct UpdateCompany {
    pub name: Option<String>,
    pub domain: Option<String>,
}

/// A partial employee update: present fields replace the stored ones.
pub struct UpdateEmployee {
    pub email: Option<String>,
    pub first_name: Option<String>,
    pub last_name: Option<String>,
    pub department: Option<String>,
}

/// A partial template update: present fields replace the stored ones.
pub struct UpdateTemplate {
    pub name: Option<String>,
    pub subject: Option<String>,
    pub body: Option<Vec<u8>>,
    pub template_type: Option<String>,
}

/// The campaign after a partial update.
pub open spec fn merged_campaign(c: CampaignModel, u: UpdateCampaign) -> CampaignModel {
    CampaignModel {
        name: match u.name {
            Some(n) => n@,
            None => c.name,
        },
        description: match u.description {
            Some(d) => Some(d@),
            None => c.description,
        },
        status: match u.status {
            Some(st) => st,
            None => c.status,
        },
        ..c
    }
}

/// The company after a partial update.
pub open spec fn merged_company(c: CompanyModel, u: UpdateCompany) -> CompanyModel {
    CompanyModel {
        name: match u.name {
            Some(n) => n@,
            None => c.name,
        },
        domain: match u.domain {
            Some(d) => d@,
            None => c.domain,
        },
        ..c
    }
}

/// The employee after a partial update.
pub open spec fn merged_employee(e: EmployeeModel, u: UpdateEmployee) -> EmployeeModel {
    EmployeeModel {
        email: match u.email {
            Some(m) => m@,
            None => e.email,
        },
        first_name: match u.first_name {
            Some(f) => Some(f@),
            None => e.first_name,
        },
        last_name: match u.last_name {
            Some(l) => Some(l@),
            None => e.last_name,
        },
        department: match u.department {
            Some(d) => Some(d@),
            None => e.department,
        },
        ..e
    }
}

/// The template after a partial update.
pub open spec fn merged_template(t: TemplateModel, u: UpdateTemplate) -> TemplateModel {
    TemplateModel {
        name: match u.name {
            Some(n) => n@,
            None => t.name,
        },
        subject: match u.subject {
            Some(sj) => sj@,
            None => t.subject,
        },
        body: match u.body {
            Some(b) => b@,
            None => t.body,
        },
        template_type: match u.template_type {
            Some(tt) => Some(tt@),
            None => t.template_type,
        },
        ..t
    }
}

} // verus!
