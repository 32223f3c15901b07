use phisherman::domain::{Campaign, CampaignStatus, Company, Employee, Template};
use phisherman::dispatch::{DispatchError, PrepareError};
use phisherman::store::Store;

const BODY: &str = "<p>See <a href=\"https://a.com\">here</a> and <a href='https://b.com'>here</a></p>";

fn base() -> Vec<u8> {
    "http://localhost:3000".as_bytes().to_vec()
}

fn employee(id: u64, company_id: u64, email: &str) -> Employee {
    Employee {
        id,
        company_id,
        email: email.to_string(),
        first_name: Some("Ada".to_string()),
        last_name: Some("Lovelace".to_string()),
        department: None,
        created_at: 0,
    }
}

fn setup(employees: usize) -> Store {
    let mut store = Store::new();
    store.add_company(Company {
        id: 1,
        name: "acme".to_string(),
        domain: "acme.test".to_string(),
        created_at: 0,
    });
    for k in 0..employees {
        store.add_employee(employee(10 + k as u64, 1, &format!("e{}@acme.test", k)));
    }
    store.add_campaign(Campaign {
        id: 1,
        company_id: 1,
        name: "drill".to_string(),
        description: None,
        status: CampaignStatus::Draft,
        created_at: 0,
        started_at: None,
        completed_at: None,
    });
    store.add_template(Template {
        id: 1,
        name: "t".to_string(),
        subject: "Check this".to_string(),
        body: BODY.as_bytes().to_vec(),
        template_type: None,
        is_public: true,
        company_id: None,
        created_at: 0,
    });
    store
}

#[test]
fn empty_roster_is_an_error_and_creates_nothing() {
    let mut store = setup(0);
    let r = store.dispatch(1, 1, &vec![], &vec![], &base(), 100);
    assert!(matches!(r, Err(DispatchError::NoEmployees)));
    assert!(store.messages.is_empty());
    assert!(store.links.is_empty());
    // a pass that errors out before any employee leaves the campaign a draft
    assert!(matches!(store.get_campaign(1).unwrap().status, CampaignStatus::Draft));
}

#[test]
fn missing_campaign_and_template_are_errors() {
    let mut store = setup(1);
    let r = store.dispatch(99, 1, &vec![5], &vec![true], &base(), 100);
    assert!(matches!(r, Err(DispatchError::CampaignNotFound)));
    let r = store.dispatch(1, 99, &vec![5], &vec![true], &base(), 100);
    assert!(matches!(r, Err(DispatchError::TemplateNotFound)));
    assert!(store.messages.is_empty());
}

#[test]
fn successful_pass_records_messages_and_links() {
    let mut store = setup(2);
    let r = store.dispatch(1, 1, &vec![111, 222], &vec![true, true], &base(), 100).unwrap();
    assert_eq!(r.sent_count, 2);
    assert_eq!(r.failed_count, 0);
    assert_eq!(r.message, "Campaign sent: 2 successful, 0 failed");

    assert_eq!(store.messages.len(), 2);
    let m = store.get_message(111).unwrap();
    assert_eq!(m.campaign_id, 1);
    assert_eq!(m.employee_id, 10);
    assert_eq!(m.subject, "Check this");
    let body = String::from_utf8(m.body.clone()).unwrap();
    assert_eq!(
        body,
        "<p>See <a href=\"http://localhost:3000/click/111/0\">here</a> \
         and <a href='http://localhost:3000/click/111/1'>here</a></p>\
         <img src=\"http://localhost:3000/track/111\" width=\"1\" height=\"1\" \
         alt=\"\" style=\"display:none;\" />"
    );

    // one tracked link per anchor, indexed in body order
    assert_eq!(store.links.len(), 4);
    let url0 = store.resolve_click(111, 0).unwrap();
    assert_eq!(String::from_utf8(url0.clone()).unwrap(), "https://a.com");
    let url1 = store.resolve_click(111, 1).unwrap();
    assert_eq!(String::from_utf8(url1.clone()).unwrap(), "https://b.com");
    assert!(store.resolve_click(111, 2).is_none());

    // the draft campaign came out active and stamped
    let c = store.get_campaign(1).unwrap();
    assert!(matches!(c.status, CampaignStatus::Active));
    assert_eq!(c.started_at, Some(100));
}

#[test]
fn transport_failure_rolls_back_all_tracking_state() {
    let mut store = setup(2);
    let r = store.dispatch(1, 1, &vec![111, 222], &vec![true, false], &base(), 100).unwrap();
    assert_eq!(r.sent_count, 1);
    assert_eq!(r.failed_count, 1);
    assert_eq!(r.message, "Campaign sent: 1 successful, 1 failed");

    // the failed employee's token resolves to nothing: no message, no links
    assert!(store.get_message(222).is_none());
    assert!(store.resolve_click(222, 0).is_none());
    assert!(store.resolve_click(222, 1).is_none());
    // the delivered one stands
    assert!(store.get_message(111).is_some());
    assert_eq!(store.messages.len(), 1);
    assert_eq!(store.links.len(), 2);
    // a mixed pass still activates the campaign
    assert!(matches!(store.get_campaign(1).unwrap().status, CampaignStatus::Active));
}

#[test]
fn all_failures_still_activate_and_leave_no_state() {
    let mut store = setup(1);
    let r = store.dispatch(1, 1, &vec![5], &vec![false], &base(), 100).unwrap();
    assert_eq!(r.sent_count, 0);
    assert_eq!(r.failed_count, 1);
    assert!(store.messages.is_empty());
    assert!(store.links.is_empty());
    assert!(matches!(store.get_campaign(1).unwrap().status, CampaignStatus::Active));
}

#[test]
fn taken_token_counts_as_failure_without_a_send() {
    let mut store = setup(2);
    // both employees handed the same token: the second insert is refused
    let r = store.dispatch(1, 1, &vec![7, 7], &vec![true, true], &base(), 100).unwrap();
    assert_eq!(r.sent_count, 1);
    assert_eq!(r.failed_count, 1);
    assert_eq!(store.messages.len(), 1);
}

#[test]
fn redispatch_sends_a_second_batch() {
    let mut store = setup(1);
    store.dispatch(1, 1, &vec![1], &vec![true], &base(), 100).unwrap();
    let r = store.dispatch(1, 1, &vec![2], &vec![true], &base(), 200).unwrap();
    assert_eq!(r.sent_count, 1);
    assert_eq!(store.messages.len(), 2);
    // an already-active campaign keeps its original start stamp
    assert_eq!(store.get_campaign(1).unwrap().started_at, Some(100));
}

#[test]
fn prepare_send_reports_each_refusal() {
    let mut store = setup(1);
    assert!(matches!(
        store.prepare_send(1, 99, 10, 5, &base(), 0),
        Err(PrepareError::TemplateNotFound)
    ));
    assert!(matches!(
        store.prepare_send(1, 1, 99, 5, &base(), 0),
        Err(PrepareError::EmployeeNotFound)
    ));
    let p = store.prepare_send(1, 1, 10, 5, &base(), 0).unwrap();
    assert_eq!(p.to_email, "e0@acme.test");
    assert_eq!(p.to_name, Some("Ada Lovelace".to_string()));
    assert_eq!(p.subject, "Check this");
    assert!(matches!(
        store.prepare_send(1, 1, 10, 5, &base(), 0),
        Err(PrepareError::TokenInUse)
    ));
}

#[test]
fn finish_send_keeps_delivered_messages() {
    let mut store = setup(1);
    store.prepare_send(1, 1, 10, 5, &base(), 0).unwrap();
    store.finish_send(5, true);
    assert!(store.get_message(5).is_some());
    store.finish_send(5, false);
    assert!(store.get_message(5).is_none());
    assert!(store.links.is_empty());
}

#[test]
fn send_campaign_draws_fresh_tokens() {
    let mut store = setup(3);
    let r = store.send_campaign(1, 1, &vec![true, true, true], &base(), 100).unwrap();
    assert_eq!(r.sent_count, 3);
    assert_eq!(r.failed_count, 0);
    assert_eq!(store.messages.len(), 3);
    // tokens are distinct
    assert_ne!(store.messages[0].token, store.messages[1].token);
    assert_ne!(store.messages[1].token, store.messages[2].token);
    assert_ne!(store.messages[0].token, store.messages[2].token);
}
