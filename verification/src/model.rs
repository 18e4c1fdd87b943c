//! The entities of the report: groups, projects, pipelines, and the nested
//! report nodes, together with their spec-level images.

use vstd::prelude::*;

verus! {

/// A remote group: an organizational container holding zero or more projects.
#[derive(Debug, Clone, PartialEq, Eq)]
pub struct ProjectGroup {
    pub name: String,
    pub id: u32,
}

/// Spec-level image of a [`ProjectGroup`].
pub struct GroupView {
    pub name: Seq<char>,
    pub id: u32,
}

impl View for ProjectGroup {
    type V = GroupView;

    open spec fn view(&self) -> GroupView {
        GroupView { name: self.name@, id: self.id }
    }
}

/// A remote project belonging to one group.
#[derive(Debug, Clone, PartialEq, Eq)]
pub struct Project {
    pub name: String,
    pub id: u32,
}

/// Spec-level image of a [`Project`].
pub struct ProjectView {
    pub name: Seq<char>,
    pub id: u32,
}

impl View for Project {
    type V = ProjectView;

    open spec fn view(&self) -> ProjectView {
        ProjectView { name: self.name@, id: self.id }
    }
}

/// The most recent pipeline of a project. The status string is an open-ended
/// enumeration defined by the remote API and is not validated locally.
#[derive(Debug, Clone, PartialEq, Eq)]
pub struct Pipeline {
    pub id: u32,
    pub status: String,
}

/// Spec-level image of a [`Pipeline`].
pub struct PipelineView {
    pub id: u32,
    pub status: Seq<char>,
}

impl View for Pipeline {
    type V = PipelineView;

    open spec fn view(&self) -> PipelineView {
        PipelineView { id: self.id, status: self.status@ }
    }
}

/// Report leaf: a project's identity merged with its latest pipeline's status.
#[derive(Debug, Clone, PartialEq, Eq)]
pub struct ProjectStatus {
    pub id: u32,
    pub name: String,
    pub status: String,
}

/// Spec-level image of a [`ProjectStatus`].
pub struct ProjectStatusView {
    pub id: u32,
    pub name: Seq<char>,
    pub status: Seq<char>,
}

impl View for ProjectStatus {
    type V = ProjectStatusView;

    open spec fn view(&self) -> ProjectStatusView {
        ProjectStatusView { id: self.id, name: self.name@, status: self.status@ }
    }
}

/// Report node: one resolved group with the statuses of all its projects, in
/// the order the remote listing returned them.
#[derive(Debug, Clone, PartialEq, Eq)]
pub struct GroupStatus {
    pub name: String,
    pub id: u32,
    pub projects: Vec<ProjectStatus>,
}

/// Spec-level image of a [`GroupStatus`].
pub struct GroupStatusView {
    pub name: Seq<char>,
    pub id: u32,
    pub projects: Seq<ProjectStatusView>,
}

impl View for GroupStatus {
    type V = GroupStatusView;

    open spec fn view(&self) -> GroupStatusView {
        GroupStatusView {
            name: self.name@,
            id: self.id,
            projects: self.projects@.map_values(|p: ProjectStatus| p@),
        }
    }
}

/// The images of a sequence of groups.
pub open spec fn group_views(s: Seq<ProjectGroup>) -> Seq<GroupView> {
    s.map_values(|g: ProjectGroup| g@)
}

/// The images of a sequence of projects.
pub open spec fn project_views(s: Seq<Project>) -> Seq<ProjectView> {
    s.map_values(|p: Project| p@)
}

/// The images of a sequence of project statuses.
pub open spec fn status_views(s: Seq<ProjectStatus>) -> Seq<ProjectStatusView> {
    s.map_values(|p: ProjectStatus| p@)
}

/// The images of a sequence of report nodes.
pub open spec fn group_status_views(s: Seq<GroupStatus>) -> Seq<GroupStatusView> {
    s.map_values(|g: GroupStatus| g@)
}

/// The images of a sequence of names.
pub open spec fn name_views(s: Seq<String>) -> Seq<Seq<char>> {
    s.map_values(|t: String| t@)
}

/// The images of a sequence of pipelines.
pub open spec fn pipeline_views(s: Seq<Pipeline>) -> Seq<PipelineView> {
    s.map_values(|p: Pipeline| p@)
}

/// The image of an optional pipeline.
pub open spec fn opt_pipeline_view(o: Option<Pipeline>) -> Option<PipelineView> {
    match o {
        Some(p) => Some(p@),
        None => None,
    }
}

/// The images of a sequence of served project pages.
pub open spec fn project_page_views(s: Seq<Vec<Project>>) -> Seq<Seq<ProjectView>> {
    s.map_values(|p: Vec<Project>| project_views(p@))
}

/// The images of a sequence of served catalog pages.
pub open spec fn group_page_views(s: Seq<Vec<ProjectGroup>>) -> Seq<Seq<GroupView>> {
    s.map_values(|p: Vec<ProjectGroup>| group_views(p@))
}

/// The status string that marks a project with no pipeline at all.
pub open spec fn no_pipeline_status() -> Seq<char> {
    "no-pipeline"@
}

/// The marker written into the report for a project with no pipeline.
pub fn no_pipeline_marker() -> (s: String)
    ensures
        s@ == no_pipeline_status(),
{
    String::from_str("no-pipeline")
}

} // verus!
