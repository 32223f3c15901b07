use phisherman::domain::{Campaign, CampaignStatus, Company, Employee, InteractionKind, Template};
use phisherman::store::Store;

const BODY: &str = "<a href=\"https://a.com\">a</a><a href=\"https://b.com\">b</a>";

fn base() -> Vec<u8> {
    "http://h".as_bytes().to_vec()
}

fn setup_with_send(token: u128) -> Store {
    let mut store = Store::new();
    store.add_company(Company {
        id: 1,
        name: "acme".to_string(),
        domain: "acme.test".to_string(),
        created_at: 0,
    });
    store.add_employee(Employee {
        id: 10,
        company_id: 1,
        email: "e@acme.test".to_string(),
        first_name: None,
        last_name: None,
        department: None,
        created_at: 0,
    });
    store.add_campaign(Campaign {
        id: 1,
        company_id: 1,
        name: "drill".to_string(),
        description: None,
        status: CampaignStatus::Draft,
        created_at: 0,
        started_at: None,
        completed_at: None,
    });
    store.add_template(Template {
        id: 1,
        name: "t".to_string(),
        subject: "s".to_string(),
        body: BODY.as_bytes().to_vec(),
        template_type: None,
        is_public: true,
        company_id: None,
        created_at: 0,
    });
    store.dispatch(1, 1, &vec![token], &vec![true], &base(), 0).unwrap();
    store
}

fn opened_rows(store: &Store, token: u128) -> usize {
    store
        .interactions
        .iter()
        .filter(|i| i.token == token && matches!(i.kind, InteractionKind::Opened))
        .count()
}

fn clicked_rows(store: &Store, token: u128) -> usize {
    store
        .interactions
        .iter()
        .filter(|i| i.token == token && matches!(i.kind, InteractionKind::Clicked))
        .count()
}

#[test]
fn repeated_opens_record_exactly_once() {
    let mut store = setup_with_send(9);
    store.record_open(9, 10);
    store.record_open(9, 20);
    store.record_open(9, 30);
    assert_eq!(opened_rows(&store, 9), 1);
    assert_eq!(store.interactions.len(), 1);
    assert_eq!(store.interactions[0].created_at, 10);
}

#[test]
fn every_click_is_recorded() {
    let mut store = setup_with_send(9);
    store.record_click(9, 0, 10);
    store.record_click(9, 0, 20);
    assert_eq!(clicked_rows(&store, 9), 2);
    assert_eq!(store.interactions[0].link_index, Some(0));
    assert_eq!(store.interactions[1].link_index, Some(0));
}

#[test]
fn unknown_tokens_are_silent_no_ops() {
    let mut store = setup_with_send(9);
    store.record_open(777, 10);
    store.record_click(777, 0, 10);
    assert!(store.interactions.is_empty());
}

#[test]
fn click_can_arrive_before_open() {
    let mut store = setup_with_send(9);
    store.record_click(9, 1, 10);
    store.record_open(9, 20);
    store.record_open(9, 30);
    assert_eq!(clicked_rows(&store, 9), 1);
    assert_eq!(opened_rows(&store, 9), 1);
}

#[test]
fn resolution_is_independent_of_recording() {
    let store = setup_with_send(9);
    let url = store.resolve_click(9, 0).unwrap();
    assert_eq!(String::from_utf8(url.clone()).unwrap(), "https://a.com");
    let url = store.resolve_click(9, 1).unwrap();
    assert_eq!(String::from_utf8(url.clone()).unwrap(), "https://b.com");
    // unknown index and unknown token both fall back
    assert!(store.resolve_click(9, 2).is_none());
    assert!(store.resolve_click(777, 0).is_none());
}
