use pipeline_status::codec::{parse_report, render_report};
use pipeline_status::model::{GroupStatus, ProjectStatus};

fn sample_report() -> Vec<GroupStatus> {
    vec![
        GroupStatus {
            name: "alpha".to_string(),
            id: 7,
            projects: vec![
                ProjectStatus { id: 1, name: "svc-a".to_string(), status: "success".to_string() },
                ProjectStatus {
                    id: 2,
                    name: "svc-b".to_string(),
                    status: "no-pipeline".to_string(),
                },
            ],
        },
        GroupStatus { name: "beta".to_string(), id: 9, projects: Vec::new() },
    ]
}

#[test]
fn render_report_is_canonical_json() {
    let rendered = render_report(&sample_report());
    let expected = "[{\"name\":\"alpha\",\"id\":7,\"projects\":[{\"id\":1,\"name\":\"svc-a\",\"status\":\"success\"},{\"id\":2,\"name\":\"svc-b\",\"status\":\"no-pipeline\"}]},{\"name\":\"beta\",\"id\":9,\"projects\":[]}]";
    assert_eq!(rendered.as_str(), expected);
}

#[test]
fn render_report_of_empty_report_is_empty_array() {
    let rendered = render_report(&Vec::new());
    assert_eq!(rendered.as_str(), "[]");
}

#[test]
fn rendered_report_parses_back_to_equal_structure() {
    let report = sample_report();
    let rendered = render_report(&report);
    let parsed = parse_report(rendered.as_str());
    assert_eq!(parsed, Some(report));
}

#[test]
fn empty_report_round_trips() {
    let report: Vec<GroupStatus> = Vec::new();
    let rendered = render_report(&report);
    let parsed = parse_report(rendered.as_str());
    assert_eq!(parsed, Some(report));
}

#[test]
fn parse_report_rejects_non_canonical_text() {
    assert_eq!(parse_report(""), None);
    assert_eq!(parse_report("{}"), None);
    assert_eq!(parse_report("[{\"name\":\"a\"}]"), None);
    assert_eq!(parse_report("[] "), None);
    assert_eq!(
        parse_report("[{\"name\":\"a\",\"id\":99999999999,\"projects\":[]}]"),
        None
    );
}
