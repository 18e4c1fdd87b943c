//! Resolution of requested group names to groups, by a paginated linear scan
//! of the remote group catalog: page size 10, starting at page 1, stopping as
//! soon as every requested name is matched or an empty page ends the catalog.
//!
//! A matched name is retired entirely, so each requested name is matched at
//! most once, and a duplicate requested name cannot be matched twice.

use vstd::prelude::*;

use crate::model::{GroupView, ProjectGroup, group_page_views, group_views, name_views};

verus! {

/// The pending names with every occurrence of `name` removed.
pub open spec fn remove_name(pending: Seq<Seq<char>>, name: Seq<char>) -> Seq<Seq<char>>
    decreases pending.len(),
{
    if pending.len() == 0 {
        Seq::empty()
    } else if pending[0] == name {
        remove_name(pending.drop_first(), name)
    } else {
        seq![pending[0]] + remove_name(pending.drop_first(), name)
    }
}

/// The groups of one catalog page that match a pending name, in page order.
/// A name, once matched, is retired before the rest of the page is scanned.
pub open spec fn scan_found(page: Seq<GroupView>, pending: Seq<Seq<char>>) -> Seq<GroupView>
    decreases page.len(),
{
    if page.len() == 0 {
        Seq::empty()
    } else if pending.contains(page[0].name) {
        seq![page[0]] + scan_found(page.drop_first(), remove_name(pending, page[0].name))
    } else {
        scan_found(page.drop_first(), pending)
    }
}

/// The names still pending after one catalog page was scanned.
pub open spec fn scan_pending(page: Seq<GroupView>, pending: Seq<Seq<char>>) -> Seq<Seq<char>>
    decreases page.len(),
{
    if page.len() == 0 {
        pending
    } else if pending.contains(page[0].name) {
        scan_pending(page.drop_first(), remove_name(pending, page[0].name))
    } else {
        scan_pending(page.drop_first(), pending)
    }
}

/// No two groups of the sequence share a name.
pub open spec fn distinct_names(groups: Seq<GroupView>) -> bool {
    forall|i: int, j: int| 0 <= i < j < groups.len() ==> groups[i].name != groups[j].name
}

fn contains_name(pending: &Vec<String>, name: &String) -> (b: bool)
    ensures
        b == name_views(pending@).contains(name@),
{
    let mut i: usize = 0;
    while i < pending.len()
        invariant
            i <= pending@.len(),
            forall|j: int| 0 <= j < i ==> pending@[j]@ != name@,
        decreases pending@.len() - i,
    {
        if pending[i].eq(name) {
            proof {
                assert(name_views(pending@)[i as int] == name@);
            }
            return true;
        }
        i += 1;
    }
    proof {
        assert forall|j: int| 0 <= j < name_views(pending@).len() implies name_views(
            pending@,
        )[j] != name@ by {
            assert(name_views(pending@)[j] == pending@[j]@);
        }
    }
    false
}

fn remove_matches(pending: &mut Vec<String>, name: &String)
    ensures
        name_views(final(pending)@) == remove_name(name_views(old(pending)@), name@),
{
    let ghost orig: Seq<Seq<char>> = name_views(pending@);
    let mut kept: Vec<String> = Vec::new();
    proof {
        assert(name_views(kept@) + remove_name(orig, name@) =~= remove_name(orig, name@));
    }
    while pending.len() > 0
        invariant
            name_views(kept@) + remove_name(name_views(pending@), name@) == remove_name(
                orig,
                name@,
            ),
        decreases pending@.len(),
    {
        let ghost before: Seq<Seq<char>> = name_views(pending@);
        let x = pending.remove(0);
        proof {
            assert(name_views(pending@) =~= before.drop_first());
            assert(x@ == before[0]);
        }
        if x.eq(name) {
            proof {
                assert(remove_name(before, name@) == remove_name(before.drop_first(), name@));
            }
        } else {
            let ghost kept_before: Seq<Seq<char>> = name_views(kept@);
            kept.push(x);
            proof {
                assert(name_views(kept@) =~= kept_before + seq![x@]);
                assert(remove_name(before, name@) == seq![before[0]] + remove_name(
                    before.drop_first(),
                    name@,
                ));
                assert(name_views(kept@) + remove_name(name_views(pending@), name@)
                    =~= kept_before + remove_name(before, name@));
            }
        }
    }
    proof {
        assert(name_views(pending@) =~= Seq::<Seq<char>>::empty());
        assert(name_views(kept@) + remove_name(name_views(pending@), name@) =~= name_views(kept@));
    }
    *pending = kept;
}

/// State of the paginated name-to-group resolution: the names still pending,
/// the groups matched so far in catalog order, the next page to request, and
/// whether the scan has terminated.
pub struct GroupResolver {
    pending: Vec<String>,
    found: Vec<ProjectGroup>,
    page: u32,
    done: bool,
}

impl GroupResolver {
    /// Names requested and not yet matched.
    pub closed spec fn pending_names(&self) -> Seq<Seq<char>> {
        name_views(self.pending@)
    }

    /// Groups matched so far, in the order the catalog listed them.
    pub closed spec fn found_groups(&self) -> Seq<GroupView> {
        group_views(self.found@)
    }

    /// Number of the next catalog page to request.
    pub closed spec fn next_page_num(&self) -> u32 {
        self.page
    }

    /// Whether resolution has terminated.
    pub closed spec fn is_done(&self) -> bool {
        self.done
    }

    /// Resolver invariant: matched groups carry pairwise distinct names, and
    /// no matched name is still pending.
    pub open spec fn inv(&self) -> bool {
        &&& distinct_names(self.found_groups())
        &&& forall|k: int|
            0 <= k < self.found_groups().len() ==> !self.pending_names().contains(
                self.found_groups()[k].name,
            )
    }

    /// A fresh resolver for the given names, positioned on page 1. With no
    /// names at all there is nothing to scan and the resolver starts done.
    pub fn new(names: Vec<String>) -> (r: GroupResolver)
        ensures
            r.pending_names() == name_views(names@),
            r.found_groups() == Seq::<GroupView>::empty(),
            r.next_page_num() == 1,
            r.is_done() == (names@.len() == 0),
            r.inv(),
    {
        let done = names.len() == 0;
        let r = GroupResolver { pending: names, found: Vec::new(), page: 1, done };
        proof {
            assert(r.found_groups() =~= Seq::<GroupView>::empty());
        }
        r
    }

    /// Whether the scan has terminated.
    pub fn done(&self) -> (b: bool)
        ensures
            b == self.is_done(),
    {
        self.done
    }

    /// The page number the next fetched catalog page must carry.
    pub fn next_page(&self) -> (p: u32)
        ensures
            p == self.next_page_num(),
    {
        self.page
    }

    /// The requested names never matched; the full answer once the scan is
    /// done, so that a caller can report them instead of dropping them.
    pub fn unresolved(&self) -> (r: &Vec<String>)
        ensures
            name_views(r@) == self.pending_names(),
    {
        &self.pending
    }

    /// The groups resolved, in the order the catalog listed them.
    pub fn into_groups(self) -> (r: Vec<ProjectGroup>)
        ensures
            group_views(r@) == self.found_groups(),
    {
        self.found
    }

    /// Scan one fetched catalog page: append every group whose name is still
    /// pending, retire each matched name, advance the page number, and stop
    /// when nothing is pending any more or the page was empty (end of the
    /// catalog).
    pub fn feed_page(&mut self, page: Vec<ProjectGroup>)
        requires
            !old(self).is_done(),
            old(self).next_page_num() < u32::MAX,
        ensures
            final(self).found_groups() == old(self).found_groups() + scan_found(
                group_views(page@),
                old(self).pending_names(),
            ),
            final(self).pending_names() == scan_pending(
                group_views(page@),
                old(self).pending_names(),
            ),
            final(self).next_page_num() == old(self).next_page_num() + 1,
            final(self).is_done() == (page@.len() == 0 || scan_pending(
                group_views(page@),
                old(self).pending_names(),
            ).len() == 0),
            old(self).inv() ==> final(self).inv(),
    {
        let ghost p0: Seq<Seq<char>> = self.pending_names();
        let ghost f0: Seq<GroupView> = self.found_groups();
        let ghost full: Seq<GroupView> = group_views(page@);
        let was_empty = page.len() == 0;
        let mut rest = page;
        proof {
            assert(f0 + scan_found(full, p0) =~= self.found_groups() + scan_found(
                group_views(rest@),
                self.pending_names(),
            ));
        }
        while rest.len() > 0
            invariant
                self.found_groups() + scan_found(group_views(rest@), self.pending_names()) == f0
                    + scan_found(full, p0),
                scan_pending(group_views(rest@), self.pending_names()) == scan_pending(full, p0),
                self.page == old(self).page,
                self.done == old(self).done,
            decreases rest@.len(),
        {
            let ghost page_before: Seq<GroupView> = group_views(rest@);
            let ghost pend_before: Seq<Seq<char>> = self.pending_names();
            let ghost found_before: Seq<GroupView> = self.found_groups();
            let g = rest.remove(0);
            proof {
                assert(group_views(rest@) =~= page_before.drop_first());
                assert(g@ == page_before[0]);
            }
            if contains_name(&self.pending, &g.name) {
                remove_matches(&mut self.pending, &g.name);
                self.found.push(g);
                proof {
                    assert(self.found_groups() =~= found_before + seq![page_before[0]]);
                    assert(self.pending_names() == remove_name(pend_before, page_before[0].name));
                    assert(scan_found(page_before, pend_before) == seq![page_before[0]]
                        + scan_found(page_before.drop_first(), self.pending_names()));
                    assert(self.found_groups() + scan_found(group_views(rest@), self.pending_names())
                        =~= found_before + scan_found(page_before, pend_before));
                }
            } else {
                proof {
                    assert(scan_found(page_before, pend_before) == scan_found(
                        page_before.drop_first(),
                        pend_before,
                    ));
                }
            }
        }
        proof {
            assert(group_views(rest@) =~= Seq::<GroupView>::empty());
            assert(self.found_groups() + scan_found(group_views(rest@), self.pending_names())
                =~= self.found_groups());
        }
        self.page = self.page + 1;
        if was_empty || self.pending.len() == 0 {
            self.done = true;
        }
        proof {
            if distinct_names(f0) && (forall|k: int|
                0 <= k < f0.len() ==> !p0.contains(f0[k].name)) {
                lemma_scan_found_distinct(full, p0);
                lemma_scan_found_of_pending(full, p0);
                lemma_scan_pending_subset(full, p0);
                let fg = self.found_groups();
                let pn = self.pending_names();
                assert forall|k: int| 0 <= k < fg.len() implies !pn.contains(fg[k].name) by {
                    if k < f0.len() {
                        assert(fg[k] == f0[k]);
                    } else {
                        assert(fg[k] == scan_found(full, p0)[k - f0.len()]);
                    }
                }
                assert forall|i: int, j: int| 0 <= i < j < fg.len() implies fg[i].name
                    != fg[j].name by {
                    if j < f0.len() {
                        assert(fg[i] == f0[i] && fg[j] == f0[j]);
                    } else if i >= f0.len() {
                        assert(fg[i] == scan_found(full, p0)[i - f0.len()]);
                        assert(fg[j] == scan_found(full, p0)[j - f0.len()]);
                    } else {
                        assert(fg[i] == f0[i]);
                        assert(fg[j] == scan_found(full, p0)[j - f0.len()]);
                        assert(p0.contains(scan_found(full, p0)[j - f0.len()].name));
                    }
                }
            }
        }
    }
}

/// The groups a full resolution run matches once positioned on page `i + 1`
/// with `pending` names still open, when the remote serves `pages` (later
/// pages empty): pages are scanned in order until nothing is pending or an
/// empty page ends the catalog.
pub open spec fn resolve_from(
    pages: Seq<Seq<GroupView>>,
    i: int,
    pending: Seq<Seq<char>>,
) -> Seq<GroupView>
    decreases pages.len() - i,
{
    if pending.len() == 0 || i < 0 || i >= pages.len() || pages[i].len() == 0 {
        Seq::empty()
    } else {
        scan_found(pages[i], pending) + resolve_from(pages, i + 1, scan_pending(pages[i], pending))
    }
}

/// The groups a full resolution run matches when the remote serves `pages`.
pub open spec fn resolve_spec(pages: Seq<Seq<GroupView>>, names: Seq<Seq<char>>) -> Seq<GroupView> {
    resolve_from(pages, 0, names)
}

/// After the removal, `name` is gone and every other name is kept as often as
/// it occurred.
proof fn lemma_remove_name_contains(pending: Seq<Seq<char>>, name: Seq<char>)
    ensures
        !remove_name(pending, name).contains(name),
        forall|n: Seq<char>|
            n != name ==> (#[trigger] remove_name(pending, name).contains(n) <==> pending.contains(
                n,
            )),
    decreases pending.len(),
{
    if pending.len() == 0 {
    } else {
        lemma_remove_name_contains(pending.drop_first(), name);
        assert forall|n: Seq<char>| pending.drop_first().contains(n) implies pending.contains(
            n,
        ) by {
            let i = choose|i: int|
                0 <= i < pending.drop_first().len() && pending.drop_first()[i] == n;
            assert(pending[i + 1] == n);
        }
        if pending[0] == name {
            assert forall|n: Seq<char>| n != name && pending.contains(n) implies pending
                .drop_first()
                .contains(n) by {
                let i = choose|i: int| 0 <= i < pending.len() && pending[i] == n;
                assert(pending.drop_first()[i - 1] == n);
            }
        } else {
            let tail = remove_name(pending.drop_first(), name);
            assert forall|n: Seq<char>| n != name implies (#[trigger] remove_name(
                pending,
                name,
            ).contains(n) <==> pending.contains(n)) by {
                if remove_name(pending, name).contains(n) {
                    let i = choose|i: int|
                        0 <= i < (seq![pending[0]] + tail).len() && (seq![pending[0]] + tail)[i]
                            == n;
                    if i == 0 {
                        assert(pending[0] == n);
                        assert(pending.contains(n));
                    } else {
                        assert(tail[i - 1] == n);
                        assert(tail.contains(n));
                        assert(pending.drop_first().contains(n));
                        assert(pending.contains(n));
                    }
                }
                if pending.contains(n) {
                    let i = choose|i: int| 0 <= i < pending.len() && pending[i] == n;
                    if i == 0 {
                        assert((seq![pending[0]] + tail)[0] == n);
                        assert((seq![pending[0]] + tail).contains(n));
                    } else {
                        assert(pending.drop_first()[i - 1] == n);
                        assert(pending.drop_first().contains(n));
                        assert(tail.contains(n));
                        let j = choose|j: int| 0 <= j < tail.len() && tail[j] == n;
                        assert((seq![pending[0]] + tail)[j + 1] == n);
                        assert((seq![pending[0]] + tail).contains(n));
                    }
                }
            }
            assert forall|i: int|
                0 <= i < (seq![pending[0]] + tail).len() implies (seq![pending[0]] + tail)[i]
                    != name by {
                if i > 0 {
                    assert((seq![pending[0]] + tail)[i] == tail[i - 1]);
                    if tail[i - 1] == name {
                        assert(tail.contains(name));
                    }
                }
            }
            assert(!(seq![pending[0]] + tail).contains(name));
        }
    }
}

/// Every name still pending after a scan was pending before it.
pub proof fn lemma_scan_pending_subset(page: Seq<GroupView>, pending: Seq<Seq<char>>)
    ensures
        forall|n: Seq<char>|
            #[trigger] scan_pending(page, pending).contains(n) ==> pending.contains(n),
    decreases page.len(),
{
    if page.len() == 0 {
    } else if pending.contains(page[0].name) {
        let removed = remove_name(pending, page[0].name);
        lemma_remove_name_contains(pending, page[0].name);
        lemma_scan_pending_subset(page.drop_first(), removed);
        assert forall|n: Seq<char>| #[trigger]
            scan_pending(page, pending).contains(n) implies pending.contains(n) by {
            assert(scan_pending(page.drop_first(), removed).contains(n));
            assert(removed.contains(n));
            if n != page[0].name {
                assert(pending.contains(n));
            }
        }
    } else {
        lemma_scan_pending_subset(page.drop_first(), pending);
        assert forall|n: Seq<char>| #[trigger]
            scan_pending(page, pending).contains(n) implies pending.contains(n) by {
            assert(scan_pending(page.drop_first(), pending).contains(n));
        }
    }
}

/// Every matched group's name was pending when the scan began, and is pending
/// no longer once the scan is over.
pub proof fn lemma_scan_found_of_pending(page: Seq<GroupView>, pending: Seq<Seq<char>>)
    ensures
        forall|k: int|
            0 <= k < scan_found(page, pending).len() ==> pending.contains(
                #[trigger] scan_found(page, pending)[k].name,
            ),
        forall|k: int|
            0 <= k < scan_found(page, pending).len() ==> !scan_pending(page, pending).contains(
                #[trigger] scan_found(page, pending)[k].name,
            ),
    decreases page.len(),
{
    if page.len() == 0 {
    } else if pending.contains(page[0].name) {
        let removed = remove_name(pending, page[0].name);
        lemma_remove_name_contains(pending, page[0].name);
        lemma_scan_found_of_pending(page.drop_first(), removed);
        lemma_scan_pending_subset(page.drop_first(), removed);
        assert forall|k: int| 0 <= k < scan_found(page, pending).len() implies pending.contains(
            #[trigger] scan_found(page, pending)[k].name,
        ) && !scan_pending(page, pending).contains(scan_found(page, pending)[k].name) by {
            let n = scan_found(page, pending)[k].name;
            if k == 0 {
                assert(scan_found(page, pending)[0] == page[0]);
                assert(!removed.contains(page[0].name));
                if scan_pending(page.drop_first(), removed).contains(n) {
                    assert(removed.contains(n));
                }
            } else {
                assert(scan_found(page, pending)[k] == scan_found(page.drop_first(), removed)[k
                    - 1]);
                assert(removed.contains(n));
                if n != page[0].name {
                    assert(pending.contains(n));
                }
            }
        }
    } else {
        lemma_scan_found_of_pending(page.drop_first(), pending);
        assert forall|k: int| 0 <= k < scan_found(page, pending).len() implies pending.contains(
            #[trigger] scan_found(page, pending)[k].name,
        ) && !scan_pending(page, pending).contains(scan_found(page, pending)[k].name) by {
            assert(scan_found(page, pending)[k] == scan_found(page.drop_first(), pending)[k]);
        }
    }
}

/// Law: a scan matches at most one group per distinct name. The groups a page
/// scan returns carry pairwise distinct names, whatever the page and whatever
/// the pending names, duplicates included.
pub proof fn lemma_scan_found_distinct(page: Seq<GroupView>, pending: Seq<Seq<char>>)
    ensures
        distinct_names(scan_found(page, pending)),
    decreases page.len(),
{
    if page.len() == 0 {
    } else if pending.contains(page[0].name) {
        let removed = remove_name(pending, page[0].name);
        lemma_remove_name_contains(pending, page[0].name);
        lemma_scan_found_distinct(page.drop_first(), removed);
        lemma_scan_found_of_pending(page.drop_first(), removed);
        let s = scan_found(page, pending);
        assert forall|i: int, j: int| 0 <= i < j < s.len() implies s[i].name != s[j].name by {
            if i == 0 {
                assert(s[j] == scan_found(page.drop_first(), removed)[j - 1]);
                assert(removed.contains(s[j].name));
            } else {
                assert(s[i] == scan_found(page.drop_first(), removed)[i - 1]);
                assert(s[j] == scan_found(page.drop_first(), removed)[j - 1]);
            }
        }
    } else {
        lemma_scan_found_distinct(page.drop_first(), pending);
    }
}

/// One full resolution run against an in-memory image of the group catalog:
/// `pages[k]` is what the remote serves for page number `k + 1`, every later
/// page empty. Returns exactly the groups the paginated scan matches.
pub fn resolve_groups(names: Vec<String>, pages: Vec<Vec<ProjectGroup>>) -> (r: Vec<ProjectGroup>)
    requires
        pages@.len() + 1 < u32::MAX,
    ensures
        group_views(r@) == resolve_spec(group_page_views(pages@), name_views(names@)),
{
    let ghost all: Seq<Seq<GroupView>> = group_page_views(pages@);
    let ghost names0: Seq<Seq<char>> = name_views(names@);
    let mut resolver = GroupResolver::new(names);
    let mut rest = pages;
    proof {
        assert(group_page_views(rest@) =~= all.skip(0));
        if names0.len() == 0 {
            assert(resolver.found_groups() =~= resolve_spec(all, names0));
        } else {
            assert(resolver.found_groups() + resolve_from(all, 0, names0) =~= resolve_from(
                all,
                0,
                names0,
            ));
        }
    }
    let mut finished = resolver.done();
    while !finished
        invariant
            finished == resolver.is_done(),
            all.len() + 1 < u32::MAX,
            resolver.is_done() ==> resolver.found_groups() == resolve_spec(all, names0),
            !resolver.is_done() ==> {
                let consumed = resolver.next_page_num() as int - 1;
                &&& 0 <= consumed <= all.len()
                &&& resolver.pending_names().len() > 0
                &&& group_page_views(rest@) == all.skip(consumed)
                &&& resolver.found_groups() + resolve_from(all, consumed, resolver.pending_names())
                    == resolve_spec(all, names0)
            },
        decreases all.len() + 2 - resolver.next_page_num() as int,
    {
        let ghost consumed: int = resolver.next_page_num() as int - 1;
        let ghost pend: Seq<Seq<char>> = resolver.pending_names();
        let ghost rest_before: Seq<Seq<GroupView>> = group_page_views(rest@);
        let ghost rest_vecs: Seq<Vec<ProjectGroup>> = rest@;
        let pg: Vec<ProjectGroup> = if rest.len() > 0 {
            let p = rest.remove(0);
            proof {
                assert(group_page_views(rest@) =~= rest_before.drop_first());
                assert(rest_before.drop_first() =~= all.skip(consumed + 1));
                assert(p == rest_vecs[0]);
                assert(rest_before[0] == group_views(rest_vecs[0]@));
                assert(rest_before[0] == all.skip(consumed)[0]);
                assert(all.skip(consumed)[0] == all[consumed]);
                assert(group_views(p@) == all[consumed]);
            }
            p
        } else {
            let p: Vec<ProjectGroup> = Vec::new();
            proof {
                assert(all.skip(consumed).len() == 0);
                assert(consumed == all.len());
                assert(group_views(p@) =~= Seq::<GroupView>::empty());
            }
            p
        };
        resolver.feed_page(pg);
        proof {
            let page_v = group_views(pg@);
            if page_v.len() == 0 {
                assert(scan_found(page_v, pend) =~= Seq::<GroupView>::empty());
                assert(resolve_from(all, consumed, pend) =~= Seq::<GroupView>::empty());
                assert(resolver.found_groups() =~= resolve_spec(all, names0));
            } else {
                assert(resolve_from(all, consumed, pend) == scan_found(all[consumed], pend)
                    + resolve_from(all, consumed + 1, scan_pending(all[consumed], pend)));
                assert(resolver.found_groups() + resolve_from(
                    all,
                    consumed + 1,
                    resolver.pending_names(),
                ) =~= resolve_spec(all, names0));
                if resolver.pending_names().len() == 0 {
                    assert(resolve_from(all, consumed + 1, resolver.pending_names())
                        =~= Seq::<GroupView>::empty());
                    assert(resolver.found_groups() =~= resolve_spec(all, names0));
                } else {
                    assert(group_page_views(rest@) =~= all.skip(consumed + 1));
                }
            }
        }
        finished = resolver.done();
    }
    resolver.into_groups()
}

/// A pending name that the scan retired was matched: some group of that name
/// stands in what the scan found.
proof fn lemma_scan_matched(page: Seq<GroupView>, pending: Seq<Seq<char>>, name: Seq<char>)
    requires
        pending.contains(name),
        !scan_pending(page, pending).contains(name),
    ensures
        exists|k: int|
            0 <= k < scan_found(page, pending).len() && #[trigger] scan_found(page, pending)[k].name
                == name,
    decreases page.len(),
{
    if page.len() == 0 {
        assert(false);
    } else if pending.contains(page[0].name) {
        let removed = remove_name(pending, page[0].name);
        if page[0].name == name {
            assert(scan_found(page, pending).len() > 0);
            assert(scan_found(page, pending)[0].name == name);
        } else {
            lemma_remove_name_contains(pending, page[0].name);
            assert(removed.contains(name));
            lemma_scan_matched(page.drop_first(), removed, name);
            let k = choose|k: int|
                0 <= k < scan_found(page.drop_first(), removed).len() && #[trigger] scan_found(
                    page.drop_first(),
                    removed,
                )[k].name == name;
            assert(scan_found(page, pending)[k + 1].name == name);
        }
    } else {
        lemma_scan_matched(page.drop_first(), pending, name);
        let k = choose|k: int|
            0 <= k < scan_found(page.drop_first(), pending).len() && #[trigger] scan_found(
                page.drop_first(),
                pending,
            )[k].name == name;
        assert(scan_found(page, pending)[k].name == name);
    }
}

proof fn lemma_resolve_from_distinct(pages: Seq<Seq<GroupView>>, i: int, pending: Seq<Seq<char>>)
    ensures
        distinct_names(resolve_from(pages, i, pending)),
        forall|k: int|
            0 <= k < resolve_from(pages, i, pending).len() ==> pending.contains(
                #[trigger] resolve_from(pages, i, pending)[k].name,
            ),
    decreases pages.len() - i,
{
    if pending.len() == 0 || i < 0 || i >= pages.len() || pages[i].len() == 0 {
    } else {
        let page = pages[i];
        let f1 = scan_found(page, pending);
        let p1 = scan_pending(page, pending);
        let rest = resolve_from(pages, i + 1, p1);
        let whole = resolve_from(pages, i, pending);
        lemma_scan_found_distinct(page, pending);
        lemma_scan_found_of_pending(page, pending);
        lemma_scan_pending_subset(page, pending);
        lemma_resolve_from_distinct(pages, i + 1, p1);
        assert(whole == f1 + rest);
        assert forall|k: int| 0 <= k < whole.len() implies pending.contains(
            #[trigger] whole[k].name,
        ) by {
            if k < f1.len() {
                assert(whole[k] == f1[k]);
            } else {
                assert(whole[k] == rest[k - f1.len()]);
                assert(p1.contains(rest[k - f1.len()].name));
            }
        }
        assert forall|a: int, b: int| 0 <= a < b < whole.len() implies whole[a].name
            != whole[b].name by {
            if b < f1.len() {
                assert(whole[a] == f1[a] && whole[b] == f1[b]);
            } else if a >= f1.len() {
                assert(whole[a] == rest[a - f1.len()]);
                assert(whole[b] == rest[b - f1.len()]);
            } else {
                assert(whole[a] == f1[a]);
                assert(whole[b] == rest[b - f1.len()]);
                assert(p1.contains(rest[b - f1.len()].name));
            }
        }
    }
}

/// Law: a full resolution run matches at most one group per distinct name.
/// The groups it returns carry pairwise distinct names, whatever the catalog
/// and whatever the requested names, duplicates included.
pub proof fn lemma_resolution_distinct(pages: Seq<Seq<GroupView>>, names: Seq<Seq<char>>)
    ensures
        distinct_names(resolve_spec(pages, names)),
{
    lemma_resolve_from_distinct(pages, 0, names);
}

proof fn lemma_resolve_from_no_skip(
    pages: Seq<Seq<GroupView>>,
    i: int,
    pending: Seq<Seq<char>>,
    name: Seq<char>,
    pi: int,
)
    requires
        pending.contains(name),
        0 <= i <= pi < pages.len(),
        exists|j: int| 0 <= j < pages[pi].len() && #[trigger] pages[pi][j].name == name,
        forall|q: int| i <= q <= pi ==> pages[q].len() > 0,
    ensures
        exists|k: int|
            0 <= k < resolve_from(pages, i, pending).len() && #[trigger] resolve_from(
                pages,
                i,
                pending,
            )[k].name == name,
    decreases pages.len() - i,
{
    let page = pages[i];
    let f1 = scan_found(page, pending);
    let p1 = scan_pending(page, pending);
    let whole = resolve_from(pages, i, pending);
    assert(page.len() > 0);
    assert(whole == f1 + resolve_from(pages, i + 1, p1));
    if i == pi {
        lemma_scan_no_skip(page, pending, name);
        let k = choose|k: int|
            0 <= k < scan_found(page, pending).len() && #[trigger] scan_found(page, pending)[k].name
                == name;
        assert(whole[k].name == name);
    } else if p1.contains(name) {
        lemma_resolve_from_no_skip(pages, i + 1, p1, name, pi);
        let k = choose|k: int|
            0 <= k < resolve_from(pages, i + 1, p1).len() && #[trigger] resolve_from(
                pages,
                i + 1,
                p1,
            )[k].name == name;
        assert(whole[f1.len() + k].name == name);
    } else {
        lemma_scan_matched(page, pending, name);
        let k = choose|k: int|
            0 <= k < scan_found(page, pending).len() && #[trigger] scan_found(page, pending)[k].name
                == name;
        assert(whole[k].name == name);
    }
}

/// Law: a full resolution run never skips the catalog. If a requested name
/// occurs anywhere on a page that the run reaches — every page before it
/// non-empty — then a group of that name stands in the result.
pub proof fn lemma_resolution_no_skip(
    pages: Seq<Seq<GroupView>>,
    names: Seq<Seq<char>>,
    name: Seq<char>,
    pi: int,
)
    requires
        names.contains(name),
        0 <= pi < pages.len(),
        exists|j: int| 0 <= j < pages[pi].len() && #[trigger] pages[pi][j].name == name,
        forall|q: int| 0 <= q <= pi ==> pages[q].len() > 0,
    ensures
        exists|k: int|
            0 <= k < resolve_spec(pages, names).len() && #[trigger] resolve_spec(
                pages,
                names,
            )[k].name == name,
{
    lemma_resolve_from_no_skip(pages, 0, names, name, pi);
    let k = choose|k: int|
        0 <= k < resolve_from(pages, 0, names).len() && #[trigger] resolve_from(
            pages,
            0,
            names,
        )[k].name == name;
    assert(resolve_spec(pages, names)[k].name == name);
}

/// Law: the scan never skips the catalog. Every group of a scanned page is
/// inspected: if a pending name occurs anywhere on the page, some group of
/// that name is matched.
pub proof fn lemma_scan_no_skip(page: Seq<GroupView>, pending: Seq<Seq<char>>, name: Seq<char>)
    requires
        pending.contains(name),
        exists|i: int| 0 <= i < page.len() && #[trigger] page[i].name == name,
    ensures
        exists|k: int|
            0 <= k < scan_found(page, pending).len() && #[trigger] scan_found(page, pending)[k].name
                == name,
    decreases page.len(),
{
    let i = choose|i: int| 0 <= i < page.len() && #[trigger] page[i].name == name;
    if pending.contains(page[0].name) {
        let removed = remove_name(pending, page[0].name);
        if page[0].name == name {
            assert(scan_found(page, pending).len() > 0);
            assert(scan_found(page, pending)[0].name == name);
        } else {
            lemma_remove_name_contains(pending, page[0].name);
            assert(removed.contains(name));
            assert(page.drop_first()[i - 1].name == name);
            lemma_scan_no_skip(page.drop_first(), removed, name);
            let k = choose|k: int|
                0 <= k < scan_found(page.drop_first(), removed).len() && #[trigger] scan_found(
                    page.drop_first(),
                    removed,
                )[k].name == name;
            assert(scan_found(page, pending)[k + 1].name == name);
        }
    } else {
        if i == 0 {
            assert(false);
        }
        assert(page.drop_first()[i - 1].name == name);
        lemma_scan_no_skip(page.drop_first(), pending, name);
        let k = choose|k: int|
            0 <= k < scan_found(page.drop_first(), pending).len() && #[trigger] scan_found(
                page.drop_first(),
                pending,
            )[k].name == name;
        assert(scan_found(page, pending)[k].name == name);
    }
}

} // verus!
