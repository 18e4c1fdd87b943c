//! Lookup of a project's most recent pipeline: the remote serves pipelines
//! most recent first, and exactly one page of size 1 is fetched, so the
//! answer is the head of the served page. A project with no pipelines serves
//! an empty page, which is an explicit "no pipeline" outcome, not an error.

use vstd::prelude::*;

use crate::model::{Pipeline, PipelineView, opt_pipeline_view, pipeline_views};

verus! {

/// The latest pipeline a served page names: its head, if it has one.
pub open spec fn latest_of(page: Seq<PipelineView>) -> Option<PipelineView> {
    if page.len() == 0 {
        None
    } else {
        Some(page[0])
    }
}

/// The single most recent pipeline out of the one fetched page. An empty page
/// — a project with no pipelines yet — gives `None`.
pub fn latest_pipeline(page: Vec<Pipeline>) -> (r: Option<Pipeline>)
    ensures
        opt_pipeline_view(r) == latest_of(pipeline_views(page@)),
{
    let mut v = page;
    if v.len() == 0 {
        proof {
            assert(pipeline_views(v@).len() == 0);
        }
        None
    } else {
        let head = v.remove(0);
        proof {
            assert(pipeline_views(page@)[0] == head@);
        }
        Some(head)
    }
}

/// Law: when the remote serves, as the one-element page, the head of the full
/// pipeline list ordered most recent first, the lookup's answer equals the
/// head of that full list.
pub proof fn lemma_latest_is_recency_head(all: Seq<PipelineView>, page: Seq<PipelineView>)
    requires
        page == if all.len() == 0 {
            Seq::<PipelineView>::empty()
        } else {
            seq![all[0]]
        },
    ensures
        latest_of(page) == latest_of(all),
{
}

} // verus!
