//! Enumeration of all projects under one group, by paginated listing: page
//! size 10, starting at page 1, page number incremented after every fetch,
//! stopping as soon as a fetched page comes back empty.

use vstd::prelude::*;

use crate::model::{Project, ProjectView, project_page_views, project_views};

verus! {

/// The projects a full enumeration returns once positioned on page `i + 1`,
/// when the remote serves `pages` (later pages empty): the concatenation of
/// the served pages up to the first empty one.
pub open spec fn enumerate_from(pages: Seq<Seq<ProjectView>>, i: int) -> Seq<ProjectView>
    decreases pages.len() - i,
{
    if i < 0 || i >= pages.len() || pages[i].len() == 0 {
        Seq::empty()
    } else {
        pages[i] + enumerate_from(pages, i + 1)
    }
}

/// The projects a full enumeration returns when the remote serves `pages`.
pub open spec fn enumerate_spec(pages: Seq<Seq<ProjectView>>) -> Seq<ProjectView> {
    enumerate_from(pages, 0)
}

/// State of the paginated project enumeration for one group: the projects
/// accumulated so far in listing order, the next page to request, and whether
/// an empty page has ended the listing.
pub struct ProjectEnumerator {
    group_id: u32,
    acc: Vec<Project>,
    page: u32,
    done: bool,
}

impl ProjectEnumerator {
    /// The group whose projects are being enumerated.
    pub closed spec fn group(&self) -> u32 {
        self.group_id
    }

    /// Projects accumulated so far, in the order the listing returned them.
    pub closed spec fn projects(&self) -> Seq<ProjectView> {
        project_views(self.acc@)
    }

    /// Number of the next listing page to request.
    pub closed spec fn next_page_num(&self) -> u32 {
        self.page
    }

    /// Whether an empty page has ended the enumeration.
    pub closed spec fn is_done(&self) -> bool {
        self.done
    }

    /// A fresh enumerator for the group, positioned on page 1.
    pub fn new(group_id: u32) -> (r: ProjectEnumerator)
        ensures
            r.group() == group_id,
            r.projects() == Seq::<ProjectView>::empty(),
            r.next_page_num() == 1,
            !r.is_done(),
    {
        let r = ProjectEnumerator { group_id, acc: Vec::new(), page: 1, done: false };
        proof {
            assert(r.projects() =~= Seq::<ProjectView>::empty());
        }
        r
    }

    /// Whether the enumeration has terminated.
    pub fn done(&self) -> (b: bool)
        ensures
            b == self.is_done(),
    {
        self.done
    }

    /// The page number the next fetched listing page must carry.
    pub fn next_page(&self) -> (p: u32)
        ensures
            p == self.next_page_num(),
    {
        self.page
    }

    /// The group identifier the page requests must name.
    pub fn group_id(&self) -> (g: u32)
        ensures
            g == self.group(),
    {
        self.group_id
    }

    /// Take in one fetched listing page: append its projects in page order,
    /// advance the page number, and stop if the page was empty.
    pub fn feed_page(&mut self, page: Vec<Project>)
        requires
            !old(self).is_done(),
            old(self).next_page_num() < u32::MAX,
        ensures
            final(self).projects() == old(self).projects() + project_views(page@),
            final(self).next_page_num() == old(self).next_page_num() + 1,
            final(self).is_done() == (page@.len() == 0),
            final(self).group() == old(self).group(),
    {
        let was_empty = page.len() == 0;
        let ghost before: Seq<ProjectView> = project_views(self.acc@);
        let ghost incoming: Seq<ProjectView> = project_views(page@);
        let mut incoming_vec = page;
        self.acc.append(&mut incoming_vec);
        proof {
            assert(project_views(self.acc@) =~= before + incoming);
        }
        self.page = self.page + 1;
        if was_empty {
            self.done = true;
        }
    }

    /// The projects enumerated, in listing order.
    pub fn into_projects(self) -> (r: Vec<Project>)
        ensures
            project_views(r@) == self.projects(),
    {
        self.acc
    }
}

/// One full enumeration run against an in-memory image of the remote listing:
/// `pages[k]` is what the remote serves for page number `k + 1`, every later
/// page empty. Returns exactly what the paginated enumeration accumulates.
pub fn list_projects(group_id: u32, pages: Vec<Vec<Project>>) -> (r: Vec<Project>)
    requires
        pages@.len() + 1 < u32::MAX,
    ensures
        project_views(r@) == enumerate_spec(project_page_views(pages@)),
{
    let ghost all: Seq<Seq<ProjectView>> = project_page_views(pages@);
    let mut en = ProjectEnumerator::new(group_id);
    let mut rest = pages;
    proof {
        assert(project_page_views(rest@) =~= all.skip(0));
        assert(en.projects() + enumerate_from(all, 0) =~= enumerate_spec(all));
    }
    let mut finished = en.done();
    while !finished
        invariant
            finished == en.is_done(),
            all.len() + 1 < u32::MAX,
            en.is_done() ==> en.projects() == enumerate_spec(all),
            !en.is_done() ==> {
                let consumed = en.next_page_num() as int - 1;
                &&& 0 <= consumed <= all.len()
                &&& project_page_views(rest@) == all.skip(consumed)
                &&& en.projects() + enumerate_from(all, consumed) == enumerate_spec(all)
            },
        decreases all.len() + 2 - en.next_page_num() as int,
    {
        let ghost consumed: int = en.next_page_num() as int - 1;
        let ghost rest_before: Seq<Seq<ProjectView>> = project_page_views(rest@);
        let ghost rest_vecs: Seq<Vec<Project>> = rest@;
        let pg: Vec<Project> = if rest.len() > 0 {
            let p = rest.remove(0);
            proof {
                assert(project_page_views(rest@) =~= rest_before.drop_first());
                assert(rest_before.drop_first() =~= all.skip(consumed + 1));
                assert(p == rest_vecs[0]);
                assert(rest_before[0] == project_views(rest_vecs[0]@));
                assert(rest_before[0] == all.skip(consumed)[0]);
                assert(all.skip(consumed)[0] == all[consumed]);
                assert(project_views(p@) == all[consumed]);
            }
            p
        } else {
            let p: Vec<Project> = Vec::new();
            proof {
                assert(all.skip(consumed).len() == 0);
                assert(consumed == all.len());
                assert(project_views(p@) =~= Seq::<ProjectView>::empty());
            }
            p
        };
        en.feed_page(pg);
        proof {
            if project_views(pg@).len() == 0 {
                assert(enumerate_from(all, consumed) =~= Seq::<ProjectView>::empty());
                assert(en.projects() =~= enumerate_spec(all));
            } else {
                assert(enumerate_from(all, consumed) == all[consumed] + enumerate_from(
                    all,
                    consumed + 1,
                ));
                assert(en.projects() + enumerate_from(all, consumed + 1) =~= enumerate_spec(all));
                assert(project_page_views(rest@) =~= all.skip(consumed + 1));
            }
        }
        finished = en.done();
    }
    en.into_projects()
}

/// Law: enumeration is idempotent for a fixed backing dataset. Two full runs,
/// each returning what the enumeration's contract pins down, and no remote
/// mutation between them, return the same projects in the same order.
pub proof fn lemma_enumeration_idempotent(
    served: Seq<Seq<ProjectView>>,
    first: Seq<ProjectView>,
    second: Seq<ProjectView>,
)
    requires
        first == enumerate_spec(served),
        second == enumerate_spec(served),
    ensures
        first == second,
{
}

} // verus!
