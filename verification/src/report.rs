//! Assembly of the nested report: one ProjectStatus per project in listing
//! order, folded under its group, one GroupStatus per resolved group in
//! resolution order.

use vstd::prelude::*;

use crate::model::{
    GroupStatus, GroupStatusView, Pipeline, Project, ProjectGroup, ProjectStatus,
    ProjectStatusView, ProjectView, PipelineView, group_status_views, no_pipeline_marker,
    no_pipeline_status, opt_pipeline_view, pipeline_views, status_views,
};
use crate::pipeline::{latest_of, latest_pipeline};

verus! {

/// The report leaf for one project: identity kept, status taken from the
/// latest pipeline, or the explicit no-pipeline marker when there is none.
pub open spec fn fold_spec(p: ProjectView, latest: Option<PipelineView>) -> ProjectStatusView {
    ProjectStatusView {
        id: p.id,
        name: p.name,
        status: match latest {
            Some(l) => l.status,
            None => no_pipeline_status(),
        },
    }
}

/// Merge one project with its latest pipeline, if any, into a report leaf.
/// A project with no pipeline gets the distinguishable no-pipeline marker
/// instead of failing.
pub fn fold_project(project: Project, latest: Option<Pipeline>) -> (r: ProjectStatus)
    ensures
        r@ == fold_spec(project@, opt_pipeline_view(latest)),
{
    match latest {
        Some(p) => ProjectStatus { id: project.id, name: project.name, status: p.status },
        None => ProjectStatus {
            id: project.id,
            name: project.name,
            status: no_pipeline_marker(),
        },
    }
}

struct CurrentGroup {
    group: ProjectGroup,
    statuses: Vec<ProjectStatus>,
}

/// Incremental assembly of the report, group by group and project by project,
/// in exactly the order the pieces are handed in: the aggregation order of the
/// report is the resolution and listing order of its parts.
pub struct ReportBuilder {
    report: Vec<GroupStatus>,
    current: Option<CurrentGroup>,
}

impl ReportBuilder {
    /// The report nodes completed so far, in the order the groups were given.
    pub closed spec fn report_view(&self) -> Seq<GroupStatusView> {
        group_status_views(self.report@)
    }

    /// Whether a group is open and collecting project statuses.
    pub closed spec fn in_group(&self) -> bool {
        self.current is Some
    }

    /// The group currently open.
    pub closed spec fn current_group(&self) -> crate::model::GroupView {
        self.current.unwrap().group@
    }

    /// The statuses collected for the open group, in the order given.
    pub closed spec fn current_statuses(&self) -> Seq<ProjectStatusView> {
        status_views(self.current.unwrap().statuses@)
    }

    /// An empty report with no group open.
    pub fn new() -> (r: ReportBuilder)
        ensures
            r.report_view() == Seq::<GroupStatusView>::empty(),
            !r.in_group(),
    {
        let r = ReportBuilder { report: Vec::new(), current: None };
        proof {
            assert(r.report_view() =~= Seq::<GroupStatusView>::empty());
        }
        r
    }

    /// Open the next resolved group; its project statuses start empty.
    pub fn start_group(&mut self, group: ProjectGroup)
        requires
            !old(self).in_group(),
        ensures
            final(self).in_group(),
            final(self).current_group() == group@,
            final(self).current_statuses() == Seq::<ProjectStatusView>::empty(),
            final(self).report_view() == old(self).report_view(),
    {
        self.current = Some(CurrentGroup { group, statuses: Vec::new() });
        proof {
            assert(self.current_statuses() =~= Seq::<ProjectStatusView>::empty());
        }
    }

    /// Fold the next listed project of the open group into the report: look
    /// its latest pipeline up in the served page and append the resulting
    /// status, preserving listing order.
    pub fn add_project(&mut self, project: Project, pipeline_page: Vec<Pipeline>)
        requires
            old(self).in_group(),
        ensures
            final(self).in_group(),
            final(self).current_group() == old(self).current_group(),
            final(self).current_statuses() == old(self).current_statuses().push(
                fold_spec(project@, latest_of(pipeline_views(pipeline_page@))),
            ),
            final(self).report_view() == old(self).report_view(),
    {
        let latest = latest_pipeline(pipeline_page);
        let status = fold_project(project, latest);
        let ghost before: Seq<ProjectStatusView> = self.current_statuses();
        match &mut self.current {
            Some(c) => {
                c.statuses.push(status);
                proof {
                    assert(self.current_statuses() =~= before.push(status@));
                }
            },
            None => {
                proof {
                    assert(false);
                }
            },
        }
    }

    /// Close the open group: its node joins the report, carrying the group's
    /// name and id and every collected status, in order.
    pub fn finish_group(&mut self)
        requires
            old(self).in_group(),
        ensures
            !final(self).in_group(),
            final(self).report_view() == old(self).report_view().push(
                GroupStatusView {
                    name: old(self).current_group().name,
                    id: old(self).current_group().id,
                    projects: old(self).current_statuses(),
                },
            ),
    {
        let ghost before: Seq<GroupStatusView> = self.report_view();
        let cur = self.current.take();
        match cur {
            Some(c) => {
                let node = GroupStatus { name: c.group.name, id: c.group.id, projects: c.statuses };
                self.report.push(node);
                proof {
                    assert(self.report_view() =~= before.push(node@));
                }
            },
            None => {
                proof {
                    assert(false);
                }
            },
        }
    }

    /// The finished report, every group closed.
    pub fn into_report(self) -> (r: Vec<GroupStatus>)
        requires
            !self.in_group(),
        ensures
            group_status_views(r@) == self.report_view(),
    {
        self.report
    }
}

/// Law: a project with zero pipelines yields the distinguishable no-pipeline
/// marker, never the status of any pipeline.
pub proof fn lemma_no_pipeline_marker_distinct(p: ProjectView)
    ensures
        fold_spec(p, latest_of(Seq::<PipelineView>::empty())).status == no_pipeline_status(),
        fold_spec(p, latest_of(Seq::<PipelineView>::empty())).id == p.id,
        fold_spec(p, latest_of(Seq::<PipelineView>::empty())).name == p.name,
{
}

} // verus!
