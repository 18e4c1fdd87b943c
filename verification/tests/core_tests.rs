use pipeline_status::decimal::u32_to_dec;
use pipeline_status::model::{GroupStatus, Pipeline, Project, ProjectGroup, ProjectStatus};
use pipeline_status::paths::{group_projects_path, groups_path, project_pipelines_path};
use pipeline_status::pipeline::latest_pipeline;
use pipeline_status::projects::{list_projects, ProjectEnumerator};
use pipeline_status::report::{fold_project, ReportBuilder};
use pipeline_status::resolve::{resolve_groups, GroupResolver};

fn grp(name: &str, id: u32) -> ProjectGroup {
    ProjectGroup { name: name.to_string(), id }
}

fn proj(name: &str, id: u32) -> Project {
    Project { name: name.to_string(), id }
}

fn pipe(id: u32, status: &str) -> Pipeline {
    Pipeline { id, status: status.to_string() }
}

#[test]
fn decimal_renders_exact_values() {
    assert_eq!(u32_to_dec(0).as_str(), "0");
    assert_eq!(u32_to_dec(7).as_str(), "7");
    assert_eq!(u32_to_dec(10).as_str(), "10");
    assert_eq!(u32_to_dec(123).as_str(), "123");
    assert_eq!(u32_to_dec(u32::MAX).as_str(), "4294967295");
}

#[test]
fn paths_match_consumed_api_surface() {
    assert_eq!(
        groups_path(2).as_str(),
        "/api/v4/groups?page=2&per_page=10&all=False"
    );
    assert_eq!(
        group_projects_path(7, 1).as_str(),
        "/api/v4/groups/7/projects/?page=1&per_page=10&all=False"
    );
    assert_eq!(
        project_pipelines_path(1).as_str(),
        "/api/v4/projects/1/pipelines/?page=1&per_page=1&all=False"
    );
}

#[test]
fn resolver_scans_pages_until_all_names_found() {
    let mut r = GroupResolver::new(vec!["alpha".to_string()]);
    assert!(!r.done());
    assert_eq!(r.next_page(), 1);
    let page1: Vec<ProjectGroup> = (0..10).map(|i| grp(&format!("g{}", i), i)).collect();
    r.feed_page(page1);
    assert!(!r.done());
    assert_eq!(r.next_page(), 2);
    let page2 = vec![grp("g10", 10), grp("alpha", 7)];
    r.feed_page(page2);
    assert!(r.done());
    assert!(r.unresolved().is_empty());
    let found = r.into_groups();
    assert_eq!(found, vec![grp("alpha", 7)]);
}

#[test]
fn resolver_duplicate_request_matched_once() {
    let mut r = GroupResolver::new(vec!["a".to_string(), "a".to_string()]);
    r.feed_page(vec![grp("a", 1), grp("b", 2)]);
    assert!(r.done());
    let found = r.into_groups();
    assert_eq!(found, vec![grp("a", 1)]);
}

#[test]
fn resolver_duplicate_remote_name_matched_once() {
    let mut r = GroupResolver::new(vec!["x".to_string()]);
    r.feed_page(vec![grp("x", 1), grp("x", 2)]);
    assert!(r.done());
    let found = r.into_groups();
    assert_eq!(found, vec![grp("x", 1)]);
}

#[test]
fn resolver_missing_name_ends_on_empty_page() {
    let mut r = GroupResolver::new(vec!["ghost".to_string()]);
    r.feed_page(vec![grp("real", 1)]);
    assert!(!r.done());
    r.feed_page(Vec::new());
    assert!(r.done());
    assert_eq!(r.unresolved(), &vec!["ghost".to_string()]);
    assert!(r.into_groups().is_empty());
}

#[test]
fn resolve_groups_scans_catalog_in_order() {
    let catalog = vec![
        vec![grp("one", 1), grp("two", 2)],
        vec![grp("three", 3), grp("four", 4)],
    ];
    let found = resolve_groups(
        vec!["four".to_string(), "one".to_string()],
        catalog,
    );
    // catalog order, not request order
    assert_eq!(found, vec![grp("one", 1), grp("four", 4)]);
}

#[test]
fn resolve_groups_stops_once_all_names_found() {
    let catalog = vec![
        vec![grp("wanted", 5)],
        vec![grp("beyond", 6)],
    ];
    let found = resolve_groups(vec!["wanted".to_string()], catalog);
    assert_eq!(found, vec![grp("wanted", 5)]);
}

#[test]
fn resolver_empty_request_starts_done() {
    let r = GroupResolver::new(Vec::new());
    assert!(r.done());
    assert!(r.into_groups().is_empty());
}

#[test]
fn enumerator_appends_pages_in_listing_order() {
    let mut en = ProjectEnumerator::new(7);
    assert_eq!(en.group_id(), 7);
    assert_eq!(en.next_page(), 1);
    en.feed_page(vec![proj("a", 1), proj("b", 2)]);
    assert!(!en.done());
    assert_eq!(en.next_page(), 2);
    en.feed_page(vec![proj("c", 3)]);
    assert!(!en.done());
    en.feed_page(Vec::new());
    assert!(en.done());
    let projects = en.into_projects();
    assert_eq!(projects, vec![proj("a", 1), proj("b", 2), proj("c", 3)]);
}

#[test]
fn list_projects_is_idempotent_for_fixed_dataset() {
    let dataset = vec![
        vec![proj("a", 1), proj("b", 2)],
        vec![proj("c", 3)],
    ];
    let first = list_projects(7, dataset.clone());
    let second = list_projects(7, dataset);
    assert_eq!(first, second);
    assert_eq!(first, vec![proj("a", 1), proj("b", 2), proj("c", 3)]);
}

#[test]
fn list_projects_stops_at_empty_page() {
    let dataset = vec![
        vec![proj("a", 1)],
        Vec::new(),
        vec![proj("late", 9)],
    ];
    let listed = list_projects(7, dataset);
    assert_eq!(listed, vec![proj("a", 1)]);
}

#[test]
fn latest_pipeline_takes_head_of_recency_ordered_page() {
    let served = vec![pipe(100, "success"), pipe(99, "failed")];
    let latest = latest_pipeline(served);
    assert_eq!(latest, Some(pipe(100, "success")));
}

#[test]
fn latest_pipeline_of_empty_page_is_none() {
    assert_eq!(latest_pipeline(Vec::new()), None);
}

#[test]
fn fold_project_keeps_identity_and_takes_status() {
    let s = fold_project(proj("svc", 4), Some(pipe(100, "running")));
    assert_eq!(
        s,
        ProjectStatus { id: 4, name: "svc".to_string(), status: "running".to_string() }
    );
}

#[test]
fn fold_project_without_pipeline_gets_marker() {
    let s = fold_project(proj("svc", 4), None);
    assert_eq!(
        s,
        ProjectStatus { id: 4, name: "svc".to_string(), status: "no-pipeline".to_string() }
    );
}

#[test]
fn group_with_zero_projects_yields_empty_sequence() {
    let mut b = ReportBuilder::new();
    b.start_group(grp("empty", 3));
    b.finish_group();
    let report = b.into_report();
    assert_eq!(
        report,
        vec![GroupStatus { name: "empty".to_string(), id: 3, projects: Vec::new() }]
    );
}

#[test]
fn aggregation_scenario_builds_expected_report() {
    // groups = ["alpha"]; the remote catalog holds 15 unrelated groups before
    // {name: "alpha", id: 7}, which therefore sits on page 2 at page size 10.
    let mut r = GroupResolver::new(vec!["alpha".to_string()]);
    let page1: Vec<ProjectGroup> = (0..10).map(|i| grp(&format!("other{}", i), 100 + i)).collect();
    r.feed_page(page1);
    assert!(!r.done());
    let mut page2: Vec<ProjectGroup> =
        (10..15).map(|i| grp(&format!("other{}", i), 100 + i)).collect();
    page2.push(grp("alpha", 7));
    r.feed_page(page2);
    assert!(r.done());
    let groups = r.into_groups();
    assert_eq!(groups, vec![grp("alpha", 7)]);

    let mut report = ReportBuilder::new();
    for group in groups {
        let mut en = ProjectEnumerator::new(group.id);
        en.feed_page(vec![proj("svc-a", 1), proj("svc-b", 2)]);
        en.feed_page(Vec::new());
        assert!(en.done());
        report.start_group(group);
        for project in en.into_projects() {
            let served: Vec<Pipeline> = if project.id == 1 {
                vec![pipe(100, "success")]
            } else {
                Vec::new()
            };
            report.add_project(project, served);
        }
        report.finish_group();
    }
    let report = report.into_report();
    let expected = vec![GroupStatus {
        name: "alpha".to_string(),
        id: 7,
        projects: vec![
            ProjectStatus { id: 1, name: "svc-a".to_string(), status: "success".to_string() },
            ProjectStatus { id: 2, name: "svc-b".to_string(), status: "no-pipeline".to_string() },
        ],
    }];
    assert_eq!(report, expected);
}
