//! The request paths of the consumed API surface, relative to the configured
//! host. Page size is fixed: 10 for groups and projects, 1 for pipelines.

use vstd::prelude::*;

use crate::decimal::{dec_str, u32_to_dec};

verus! {

/// The path that lists page `page` of the group catalog.
pub open spec fn groups_path_spec(page: u32) -> Seq<char> {
    "/api/v4/groups?page="@ + dec_str(page as nat) + "&per_page=10&all=False"@
}

/// Build the group-catalog path for one page.
pub fn groups_path(page: u32) -> (s: String)
    ensures
        s@ == groups_path_spec(page),
{
    let mut s = String::from_str("/api/v4/groups?page=");
    let d = u32_to_dec(page);
    s.append(d.as_str());
    s.append("&per_page=10&all=False");
    proof {
        assert(s@ =~= groups_path_spec(page));
    }
    s
}

/// The path that lists page `page` of the projects of group `group_id`.
pub open spec fn group_projects_path_spec(group_id: u32, page: u32) -> Seq<char> {
    "/api/v4/groups/"@ + dec_str(group_id as nat) + "/projects/?page="@ + dec_str(page as nat)
        + "&per_page=10&all=False"@
}

/// Build the project-listing path for one page of one group.
pub fn group_projects_path(group_id: u32, page: u32) -> (s: String)
    ensures
        s@ == group_projects_path_spec(group_id, page),
{
    let mut s = String::from_str("/api/v4/groups/");
    let g = u32_to_dec(group_id);
    s.append(g.as_str());
    s.append("/projects/?page=");
    let d = u32_to_dec(page);
    s.append(d.as_str());
    s.append("&per_page=10&all=False");
    proof {
        assert(s@ =~= group_projects_path_spec(group_id, page));
    }
    s
}

/// The path that lists the single most recent pipeline of project
/// `project_id`: one page of size 1, most recent first.
pub open spec fn project_pipelines_path_spec(project_id: u32) -> Seq<char> {
    "/api/v4/projects/"@ + dec_str(project_id as nat) + "/pipelines/?page=1&per_page=1&all=False"@
}

/// Build the pipeline-listing path for one project.
pub fn project_pipelines_path(project_id: u32) -> (s: String)
    ensures
        s@ == project_pipelines_path_spec(project_id),
{
    let mut s = String::from_str("/api/v4/projects/");
    let p = u32_to_dec(project_id);
    s.append(p.as_str());
    s.append("/pipelines/?page=1&per_page=1&all=False");
    proof {
        assert(s@ =~= project_pipelines_path_spec(project_id));
    }
    s
}

} // verus!
