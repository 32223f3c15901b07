use phisherman::config::Config;
use phisherman::domain::{
    Campaign, CampaignStatus, Company, Employee, Template, UpdateCampaign, UpdateCompany,
    UpdateEmployee, UpdateTemplate,
};
use phisherman::store::Store;

fn company(id: u64, name: &str) -> Company {
    Company { id, name: name.to_string(), domain: "example.test".to_string(), created_at: 0 }
}

fn employee(id: u64, company_id: u64, email: &str, department: Option<&str>) -> Employee {
    Employee {
        id,
        company_id,
        email: email.to_string(),
        first_name: None,
        last_name: None,
        department: department.map(|d| d.to_string()),
        created_at: 0,
    }
}

fn campaign(id: u64, company_id: u64, name: &str) -> Campaign {
    Campaign {
        id,
        company_id,
        name: name.to_string(),
        description: None,
        status: CampaignStatus::Draft,
        created_at: 0,
        started_at: None,
        completed_at: None,
    }
}

fn template(id: u64, body: &str) -> Template {
    Template {
        id,
        name: "t".to_string(),
        subject: "subject".to_string(),
        body: body.as_bytes().to_vec(),
        template_type: None,
        is_public: true,
        company_id: None,
        created_at: 0,
    }
}

#[test]
fn duplicate_ids_are_rejected() {
    let mut store = Store::new();
    assert!(store.add_company(company(1, "acme")));
    assert!(!store.add_company(company(1, "other")));
    assert_eq!(store.companies.len(), 1);
    assert!(store.add_employee(employee(1, 1, "a@x.test", None)));
    assert!(!store.add_employee(employee(1, 1, "b@x.test", None)));
    assert!(store.add_campaign(campaign(1, 1, "c")));
    assert!(!store.add_campaign(campaign(1, 1, "c2")));
    assert!(store.add_template(template(1, "<p>x</p>")));
    assert!(!store.add_template(template(1, "<p>y</p>")));
}

#[test]
fn lookups_find_rows_by_id() {
    let mut store = Store::new();
    store.add_company(company(1, "acme"));
    store.add_employee(employee(7, 1, "a@x.test", Some("Sales")));
    store.add_campaign(campaign(3, 1, "drill"));
    store.add_template(template(9, "<p>x</p>"));
    assert_eq!(store.get_campaign(3).unwrap().name, "drill");
    assert!(store.get_campaign(4).is_none());
    assert_eq!(store.get_employee(7).unwrap().email, "a@x.test");
    assert!(store.get_employee(8).is_none());
    assert_eq!(store.get_template(9).unwrap().subject, "subject");
    assert!(store.get_template(10).is_none());
    assert!(store.get_message(123).is_none());
}

#[test]
fn roster_keeps_table_order_per_company() {
    let mut store = Store::new();
    store.add_company(company(1, "acme"));
    store.add_company(company(2, "globex"));
    store.add_employee(employee(10, 1, "a@x.test", None));
    store.add_employee(employee(11, 2, "b@x.test", None));
    store.add_employee(employee(12, 1, "c@x.test", None));
    assert_eq!(store.employee_ids_of_company(1), vec![10, 12]);
    assert_eq!(store.employee_ids_of_company(2), vec![11]);
    assert!(store.employee_ids_of_company(3).is_empty());
}

#[test]
fn campaign_update_merges_present_fields() {
    let mut store = Store::new();
    store.add_campaign(campaign(1, 1, "old"));
    let ok = store.update_campaign(
        1,
        UpdateCampaign {
            name: Some("new".to_string()),
            description: None,
            status: Some(CampaignStatus::Completed),
        },
    );
    assert!(ok);
    let c = store.get_campaign(1).unwrap();
    assert_eq!(c.name, "new");
    assert_eq!(c.description, None);
    assert!(matches!(c.status, CampaignStatus::Completed));
    assert!(!store.update_campaign(
        2,
        UpdateCampaign { name: None, description: None, status: None },
    ));
}

#[test]
fn company_update_merges_present_fields() {
    let mut store = Store::new();
    store.add_company(company(1, "acme"));
    assert!(store.update_company(
        1,
        UpdateCompany { name: None, domain: Some("new.test".to_string()) },
    ));
    assert_eq!(store.companies[0].name, "acme");
    assert_eq!(store.companies[0].domain, "new.test");
}

#[test]
fn employee_update_merges_present_fields() {
    let mut store = Store::new();
    store.add_employee(employee(1, 1, "a@x.test", None));
    assert!(store.update_employee(
        1,
        UpdateEmployee {
            email: None,
            first_name: Some("Ada".to_string()),
            last_name: None,
            department: Some("IT".to_string()),
        },
    ));
    let e = store.get_employee(1).unwrap();
    assert_eq!(e.email, "a@x.test");
    assert_eq!(e.first_name, Some("Ada".to_string()));
    assert_eq!(e.last_name, None);
    assert_eq!(e.department, Some("IT".to_string()));
}

#[test]
fn template_update_merges_present_fields() {
    let mut store = Store::new();
    store.add_template(template(1, "<p>old</p>"));
    assert!(store.update_template(
        1,
        UpdateTemplate {
            name: None,
            subject: Some("new subject".to_string()),
            body: Some("<p>new</p>".as_bytes().to_vec()),
            template_type: None,
        },
    ));
    let t = store.get_template(1).unwrap();
    assert_eq!(t.name, "t");
    assert_eq!(t.subject, "new subject");
    assert_eq!(t.body, "<p>new</p>".as_bytes().to_vec());
}

#[test]
fn config_addr_joins_host_and_port() {
    let c = Config {
        database_url: "postgres://localhost/db".to_string(),
        host: "127.0.0.1".to_string(),
        port: 3000,
    };
    assert_eq!(c.addr(), "127.0.0.1:3000");
}
