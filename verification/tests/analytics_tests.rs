use phisherman::analytics::AnalyticsError;
use phisherman::domain::{Campaign, CampaignStatus, Company, Employee, Template};
use phisherman::store::Store;

fn base() -> Vec<u8> {
    "http://h".as_bytes().to_vec()
}

fn employee(id: u64, department: Option<&str>) -> Employee {
    Employee {
        id,
        company_id: 1,
        email: format!("e{}@acme.test", id),
        first_name: None,
        last_name: None,
        department: department.map(|d| d.to_string()),
        created_at: 0,
    }
}

fn setup(employees: &[(u64, Option<&str>)]) -> Store {
    let mut store = Store::new();
    store.add_company(Company {
        id: 1,
        name: "acme".to_string(),
        domain: "acme.test".to_string(),
        created_at: 0,
    });
    for (id, dept) in employees {
        store.add_employee(employee(*id, *dept));
    }
    store.add_campaign(Campaign {
        id: 1,
        company_id: 1,
        name: "drill".to_string(),
        description: None,
        status: CampaignStatus::Draft,
        created_at: 0,
        started_at: None,
        completed_at: None,
    });
    store.add_template(Template {
        id: 1,
        name: "t".to_string(),
        subject: "s".to_string(),
        body: "<a href=\"https://a.com\">a</a>".as_bytes().to_vec(),
        template_type: None,
        is_public: true,
        company_id: None,
        created_at: 0,
    });
    store
}

#[test]
fn unknown_campaign_is_the_one_error() {
    let store = setup(&[]);
    assert!(matches!(store.get_campaign_analytics(99), Err(AnalyticsError::CampaignNotFound)));
}

#[test]
fn zero_sent_yields_a_zero_filled_report() {
    let store = setup(&[(10, Some("Sales")), (11, None)]);
    let a = store.get_campaign_analytics(1).unwrap();
    assert_eq!(a.campaign_id, 1);
    assert_eq!(a.campaign_name, "drill");
    assert_eq!(a.total_sent, 0);
    assert_eq!(a.total_opened, 0);
    assert_eq!(a.total_clicked, 0);
    assert_eq!(a.open_rate_tenths, 0);
    assert_eq!(a.click_rate_tenths, 0);
    // the breakdown is still fully populated, with headcounts
    assert_eq!(a.departments.len(), 2);
    for d in &a.departments {
        assert_eq!(d.emails_sent, 0);
        assert_eq!(d.open_rate_tenths, 0);
        assert_eq!(d.click_rate_tenths, 0);
        assert_eq!(d.employee_count, 1);
    }
    let names: Vec<&str> = a.departments.iter().map(|d| d.department.as_str()).collect();
    assert!(names.contains(&"Sales"));
    assert!(names.contains(&"Unknown"));
}

#[test]
fn ten_sent_four_opened_two_clicked() {
    let employees: Vec<(u64, Option<&str>)> = (0..10u64).map(|k| (10 + k, None)).collect();
    let mut store = setup(&employees);
    let tokens: Vec<u128> = (1..=10u128).collect();
    let outcomes = vec![true; 10];
    store.dispatch(1, 1, &tokens, &outcomes, &base(), 0).unwrap();
    for t in 1..=4u128 {
        store.record_open(t, 0);
    }
    for t in 1..=2u128 {
        store.record_click(t, 0, 0);
    }
    let a = store.get_campaign_analytics(1).unwrap();
    assert_eq!(a.total_sent, 10);
    assert_eq!(a.total_opened, 4);
    assert_eq!(a.total_clicked, 2);
    // open rate 40.0 percent, click rate 20.0 percent, in tenths
    assert_eq!(a.open_rate_tenths, 400);
    assert_eq!(a.click_rate_tenths, 200);
}

#[test]
fn repeated_opens_do_not_inflate_the_open_count() {
    let mut store = setup(&[(10, None), (11, None)]);
    store.dispatch(1, 1, &vec![1, 2], &vec![true, true], &base(), 0).unwrap();
    store.record_open(1, 0);
    store.record_open(1, 0);
    store.record_open(1, 0);
    let a = store.get_campaign_analytics(1).unwrap();
    assert_eq!(a.total_sent, 2);
    assert_eq!(a.total_opened, 1);
    assert_eq!(a.open_rate_tenths, 500);
}

#[test]
fn departments_are_ordered_by_clicks_descending() {
    let mut store = setup(&[
        (10, Some("Sales")),
        (11, Some("IT")),
        (12, Some("IT")),
        (13, None),
    ]);
    let tokens = vec![1u128, 2, 3, 4];
    store.dispatch(1, 1, &tokens, &vec![true; 4], &base(), 0).unwrap();
    // one click for Sales (token 1), two messages clicked for IT (tokens 2 and 3)
    store.record_click(1, 0, 0);
    store.record_click(2, 0, 0);
    store.record_click(3, 0, 0);
    store.record_open(2, 0);
    let a = store.get_campaign_analytics(1).unwrap();
    assert_eq!(a.departments.len(), 3);
    assert_eq!(a.departments[0].department, "IT");
    assert_eq!(a.departments[0].employee_count, 2);
    assert_eq!(a.departments[0].emails_sent, 2);
    assert_eq!(a.departments[0].emails_opened, 1);
    assert_eq!(a.departments[0].links_clicked, 2);
    assert_eq!(a.departments[0].open_rate_tenths, 500);
    assert_eq!(a.departments[0].click_rate_tenths, 1000);
    assert_eq!(a.departments[1].department, "Sales");
    assert_eq!(a.departments[1].links_clicked, 1);
    assert_eq!(a.departments[2].department, "Unknown");
    assert_eq!(a.departments[2].links_clicked, 0);
}

#[test]
fn click_count_ties_keep_first_appearance_order() {
    let mut store = setup(&[(10, Some("Sales")), (11, Some("IT"))]);
    store.dispatch(1, 1, &vec![1, 2], &vec![true, true], &base(), 0).unwrap();
    let a = store.get_campaign_analytics(1).unwrap();
    // no clicks anywhere: both buckets tie at zero and keep table order
    assert_eq!(a.departments[0].department, "Sales");
    assert_eq!(a.departments[1].department, "IT");
}

#[test]
fn rolled_back_sends_never_reach_analytics() {
    let mut store = setup(&[(10, None), (11, None)]);
    store.dispatch(1, 1, &vec![1, 2], &vec![true, false], &base(), 0).unwrap();
    let a = store.get_campaign_analytics(1).unwrap();
    assert_eq!(a.total_sent, 1);
}
