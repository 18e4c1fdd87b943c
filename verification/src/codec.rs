//! A canonical JSON rendering of the report, and a parser for exactly that
//! rendering, proved to be a round trip.
//!
//! The rendering writes strings verbatim between quotes: a name or status
//! holding a quote or a backslash would need escaping, which this canonical
//! form does not perform, so the round-trip law is stated for reports free of
//! those two characters.

use vstd::prelude::*;

use crate::decimal::{dec_digit, dec_str, u32_to_dec};
use crate::model::{
    GroupStatus, GroupStatusView, ProjectStatus, ProjectStatusView, group_status_views,
};

verus! {

/// A string the canonical rendering can embed verbatim: no quote, no
/// backslash.
pub open spec fn json_safe_str(s: Seq<char>) -> bool {
    forall|i: int| 0 <= i < s.len() ==> s[i] != '"' && s[i] != '\\'
}

/// Every string of the leaf is embeddable.
pub open spec fn json_safe_status(p: ProjectStatusView) -> bool {
    json_safe_str(p.name) && json_safe_str(p.status)
}

/// Every string of the node and of its leaves is embeddable.
pub open spec fn json_safe_group(g: GroupStatusView) -> bool {
    json_safe_str(g.name) && forall|i: int|
        0 <= i < g.projects.len() ==> json_safe_status(#[trigger] g.projects[i])
}

/// Every string of the report is embeddable.
pub open spec fn json_safe_report(gs: Seq<GroupStatusView>) -> bool {
    forall|i: int| 0 <= i < gs.len() ==> json_safe_group(#[trigger] gs[i])
}

/// The canonical rendering of one report leaf.
pub open spec fn render_status(p: ProjectStatusView) -> Seq<char> {
    "{\"id\":"@ + dec_str(p.id as nat) + ",\"name\":\""@ + p.name + "\",\"status\":\""@ + p.status
        + "\"}"@
}

/// The canonical rendering of a comma-separated run of leaves.
pub open spec fn render_statuses(ps: Seq<ProjectStatusView>) -> Seq<char>
    decreases ps.len(),
{
    if ps.len() == 0 {
        Seq::empty()
    } else if ps.len() == 1 {
        render_status(ps[0])
    } else {
        render_status(ps[0]) + seq![','] + render_statuses(ps.drop_first())
    }
}

/// The canonical rendering of one report node.
pub open spec fn render_group(g: GroupStatusView) -> Seq<char> {
    "{\"name\":\""@ + g.name + "\",\"id\":"@ + dec_str(g.id as nat) + ",\"projects\":["@
        + render_statuses(g.projects) + "]}"@
}

/// The canonical rendering of a comma-separated run of nodes.
pub open spec fn render_groups(gs: Seq<GroupStatusView>) -> Seq<char>
    decreases gs.len(),
{
    if gs.len() == 0 {
        Seq::empty()
    } else if gs.len() == 1 {
        render_group(gs[0])
    } else {
        render_group(gs[0]) + seq![','] + render_groups(gs.drop_first())
    }
}

/// The canonical rendering of the whole report.
pub open spec fn render_report_spec(gs: Seq<GroupStatusView>) -> Seq<char> {
    seq!['['] + render_groups(gs) + seq![']']
}

proof fn lemma_render_statuses_snoc(ps: Seq<ProjectStatusView>, p: ProjectStatusView)
    ensures
        render_statuses(ps.push(p)) == if ps.len() == 0 {
            render_status(p)
        } else {
            render_statuses(ps) + seq![','] + render_status(p)
        },
    decreases ps.len(),
{
    let whole = ps.push(p);
    if ps.len() == 0 {
        assert(whole.len() == 1);
        assert(whole[0] == p);
    } else {
        assert(whole.len() >= 2);
        assert(whole[0] == ps[0]);
        assert(whole.drop_first() =~= ps.drop_first().push(p));
        lemma_render_statuses_snoc(ps.drop_first(), p);
        assert(render_statuses(whole) =~= render_statuses(ps) + seq![','] + render_status(p));
    }
}

proof fn lemma_render_groups_snoc(gs: Seq<GroupStatusView>, g: GroupStatusView)
    ensures
        render_groups(gs.push(g)) == if gs.len() == 0 {
            render_group(g)
        } else {
            render_groups(gs) + seq![','] + render_group(g)
        },
    decreases gs.len(),
{
    let whole = gs.push(g);
    if gs.len() == 0 {
        assert(whole.len() == 1);
        assert(whole[0] == g);
    } else {
        assert(whole.len() >= 2);
        assert(whole[0] == gs[0]);
        assert(whole.drop_first() =~= gs.drop_first().push(g));
        lemma_render_groups_snoc(gs.drop_first(), g);
        assert(render_groups(whole) =~= render_groups(gs) + seq![','] + render_group(g));
    }
}

fn render_status_exec(p: &ProjectStatus) -> (s: String)
    ensures
        s@ == render_status(p@),
{
    let mut s = String::from_str("{\"id\":");
    let d = u32_to_dec(p.id);
    s.append(d.as_str());
    s.append(",\"name\":\"");
    s.append(p.name.as_str());
    s.append("\",\"status\":\"");
    s.append(p.status.as_str());
    s.append("\"}");
    proof {
        assert(s@ =~= render_status(p@));
    }
    s
}

fn render_group_exec(g: &GroupStatus) -> (s: String)
    ensures
        s@ == render_group(g@),
{
    let mut s = String::from_str("{\"name\":\"");
    s.append(g.name.as_str());
    s.append("\",\"id\":");
    let d = u32_to_dec(g.id);
    s.append(d.as_str());
    s.append(",\"projects\":[");
    let ghost head: Seq<char> = s@;
    let mut i: usize = 0;
    while i < g.projects.len()
        invariant
            i <= g.projects@.len(),
            s@ == head + render_statuses(g@.projects.take(i as int)),
        decreases g.projects@.len() - i,
    {
        let ghost taken: Seq<ProjectStatusView> = g@.projects.take(i as int);
        if i > 0 {
            s.append(",");
            proof {
                reveal_strlit(",");
            }
        }
        let piece = render_status_exec(&g.projects[i]);
        s.append(piece.as_str());
        proof {
            assert(g@.projects[i as int] == g.projects@[i as int]@);
            assert(g@.projects.take(i as int + 1) =~= taken.push(g@.projects[i as int]));
            lemma_render_statuses_snoc(taken, g@.projects[i as int]);
            assert(taken.len() == i as int);
            assert(s@ =~= head + render_statuses(g@.projects.take(i as int + 1)));
        }
        i += 1;
    }
    proof {
        assert(g@.projects.take(g.projects@.len() as int) =~= g@.projects);
    }
    s.append("]}");
    proof {
        assert(s@ =~= render_group(g@));
    }
    s
}

/// Render the whole report as one canonical JSON document.
pub fn render_report(report: &Vec<GroupStatus>) -> (s: String)
    ensures
        s@ == render_report_spec(group_status_views(report@)),
{
    let mut s = String::from_str("[");
    proof {
        reveal_strlit("[");
        assert(s@ =~= seq!['[']);
    }
    let ghost nodes: Seq<GroupStatusView> = group_status_views(report@);
    let mut i: usize = 0;
    while i < report.len()
        invariant
            i <= report@.len(),
            nodes == group_status_views(report@),
            s@ == seq!['['] + render_groups(nodes.take(i as int)),
        decreases report@.len() - i,
    {
        let ghost taken: Seq<GroupStatusView> = nodes.take(i as int);
        if i > 0 {
            s.append(",");
            proof {
                reveal_strlit(",");
            }
        }
        let piece = render_group_exec(&report[i]);
        s.append(piece.as_str());
        proof {
            assert(nodes[i as int] == report@[i as int]@);
            assert(nodes.take(i as int + 1) =~= taken.push(nodes[i as int]));
            lemma_render_groups_snoc(taken, nodes[i as int]);
            assert(s@ =~= seq!['['] + render_groups(nodes.take(i as int + 1)));
        }
        i += 1;
    }
    proof {
        assert(nodes.take(report@.len() as int) =~= nodes);
    }
    s.append("]");
    proof {
        reveal_strlit("]");
        assert(s@ =~= render_report_spec(nodes));
    }
    s
}

/// One decimal digit character.
pub open spec fn is_digit(c: char) -> bool {
    c == '0' || c == '1' || c == '2' || c == '3' || c == '4' || c == '5' || c == '6' || c == '7'
        || c == '8' || c == '9'
}

/// The value of one digit character.
pub open spec fn digit_val(c: char) -> int {
    if c == '0' {
        0
    } else if c == '1' {
        1
    } else if c == '2' {
        2
    } else if c == '3' {
        3
    } else if c == '4' {
        4
    } else if c == '5' {
        5
    } else if c == '6' {
        6
    } else if c == '7' {
        7
    } else if c == '8' {
        8
    } else {
        9
    }
}

/// The longest run of digits at the head.
pub open spec fn take_digits(s: Seq<char>) -> Seq<char>
    decreases s.len(),
{
    if s.len() == 0 || !is_digit(s[0]) {
        Seq::empty()
    } else {
        seq![s[0]] + take_digits(s.drop_first())
    }
}

/// The number a run of digits denotes, most significant digit first.
pub open spec fn dec_val(ds: Seq<char>) -> int
    decreases ds.len(),
{
    if ds.len() == 0 {
        0
    } else {
        dec_val(ds.drop_last()) * 10 + digit_val(ds.last())
    }
}

/// Parse a number: its digits, greedily, and what follows them.
pub open spec fn parse_number(s: Seq<char>) -> Option<(int, Seq<char>)> {
    let ds = take_digits(s);
    if ds.len() == 0 {
        None
    } else {
        Some((dec_val(ds), s.skip(ds.len() as int)))
    }
}

/// Consume an expected literal prefix.
pub open spec fn expect(s: Seq<char>, lit: Seq<char>) -> Option<Seq<char>> {
    if lit.len() <= s.len() && s.take(lit.len() as int) == lit {
        Some(s.skip(lit.len() as int))
    } else {
        None
    }
}

/// Parse a string body up to and including its closing quote.
pub open spec fn parse_string_body(s: Seq<char>) -> Option<(Seq<char>, Seq<char>)>
    decreases s.len(),
{
    if s.len() == 0 {
        None
    } else if s[0] == '"' {
        Some((Seq::empty(), s.drop_first()))
    } else {
        match parse_string_body(s.drop_first()) {
            None => None,
            Some((c, r)) => Some((seq![s[0]] + c, r)),
        }
    }
}

/// Parse one canonical report leaf.
pub open spec fn parse_status(s: Seq<char>) -> Option<(ProjectStatusView, Seq<char>)> {
    match expect(s, "{\"id\":"@) {
        None => None,
        Some(s1) => match parse_number(s1) {
            None => None,
            Some((id, s2)) => if id > u32::MAX as int {
                None
            } else {
                match expect(s2, ",\"name\":\""@) {
                    None => None,
                    Some(s3) => match parse_string_body(s3) {
                        None => None,
                        Some((name, s4)) => match expect(s4, ",\"status\":\""@) {
                            None => None,
                            Some(s5) => match parse_string_body(s5) {
                                None => None,
                                Some((status, s6)) => match expect(s6, "}"@) {
                                    None => None,
                                    Some(s7) => Some(
                                        (
                                            ProjectStatusView {
                                                id: id as u32,
                                                name: name,
                                                status: status,
                                            },
                                            s7,
                                        ),
                                    ),
                                },
                            },
                        },
                    },
                }
            },
        },
    }
}

/// Parse a canonical run of leaves, up to and including the closing bracket.
pub open spec fn parse_statuses(s: Seq<char>) -> Option<(Seq<ProjectStatusView>, Seq<char>)>
    decreases s.len(),
{
    if s.len() == 0 {
        None
    } else if s[0] == ']' {
        Some((Seq::empty(), s.drop_first()))
    } else {
        match parse_status(s) {
            None => None,
            Some((p, r)) => if r.len() == 0 {
                None
            } else if r[0] == ',' && r.len() < s.len() {
                match parse_statuses(r.drop_first()) {
                    None => None,
                    Some((ps, r2)) => Some((seq![p] + ps, r2)),
                }
            } else if r[0] == ']' {
                Some((seq![p], r.drop_first()))
            } else {
                None
            },
        }
    }
}

/// Parse one canonical report node.
pub open spec fn parse_group(s: Seq<char>) -> Option<(GroupStatusView, Seq<char>)> {
    match expect(s, "{\"name\":\""@) {
        None => None,
        Some(s1) => match parse_string_body(s1) {
            None => None,
            Some((name, s2)) => match expect(s2, ",\"id\":"@) {
                None => None,
                Some(s3) => match parse_number(s3) {
                    None => None,
                    Some((id, s4)) => if id > u32::MAX as int {
                        None
                    } else {
                        match expect(s4, ",\"projects\":["@) {
                            None => None,
                            Some(s5) => match parse_statuses(s5) {
                                None => None,
                                Some((ps, s6)) => match expect(s6, "}"@) {
                                    None => None,
                                    Some(s7) => Some(
                                        (
                                            GroupStatusView {
                                                name: name,
                                                id: id as u32,
                                                projects: ps,
                                            },
                                            s7,
                                        ),
                                    ),
                                },
                            },
                        }
                    },
                },
            },
        },
    }
}

/// Parse a canonical run of nodes, up to and including the closing bracket.
pub open spec fn parse_groups(s: Seq<char>) -> Option<(Seq<GroupStatusView>, Seq<char>)>
    decreases s.len(),
{
    if s.len() == 0 {
        None
    } else if s[0] == ']' {
        Some((Seq::empty(), s.drop_first()))
    } else {
        match parse_group(s) {
            None => None,
            Some((g, r)) => if r.len() == 0 {
                None
            } else if r[0] == ',' && r.len() < s.len() {
                match parse_groups(r.drop_first()) {
                    None => None,
                    Some((gs, r2)) => Some((seq![g] + gs, r2)),
                }
            } else if r[0] == ']' {
                Some((seq![g], r.drop_first()))
            } else {
                None
            },
        }
    }
}

proof fn lemma_dec_str_digits(n: nat)
    ensures
        forall|i: int| 0 <= i < dec_str(n).len() ==> is_digit(#[trigger] dec_str(n)[i]),
    decreases n,
{
    if n < 10 {
        assert(dec_str(n)[0] == dec_digit(n as int));
    } else {
        lemma_dec_str_digits(n / 10);
        assert forall|i: int| 0 <= i < dec_str(n).len() implies is_digit(
            #[trigger] dec_str(n)[i],
        ) by {
            if i < dec_str(n / 10).len() {
                assert(dec_str(n)[i] == dec_str(n / 10)[i]);
            } else {
                assert(dec_str(n)[i] == dec_digit((n % 10) as int));
            }
        }
    }
}

proof fn lemma_dec_val_of_dec_str(n: nat)
    ensures
        dec_val(dec_str(n)) == n,
    decreases n,
{
    if n < 10 {
        assert(dec_str(n).drop_last() =~= Seq::<char>::empty());
        assert(dec_val(Seq::<char>::empty()) == 0);
        assert(dec_str(n).last() == dec_digit(n as int));
        assert(digit_val(dec_digit(n as int)) == n);
    } else {
        lemma_dec_val_of_dec_str(n / 10);
        assert(dec_str(n).drop_last() =~= dec_str(n / 10));
        assert(dec_str(n).last() == dec_digit((n % 10) as int));
        assert(digit_val(dec_digit((n % 10) as int)) == n % 10);
        assert(n / 10 * 10 + n % 10 == n);
    }
}

proof fn lemma_take_digits_exact(a: Seq<char>, rest: Seq<char>)
    requires
        forall|i: int| 0 <= i < a.len() ==> is_digit(#[trigger] a[i]),
        rest.len() == 0 || !is_digit(rest[0]),
    ensures
        take_digits(a + rest) == a,
        (a + rest).skip(a.len() as int) == rest,
    decreases a.len(),
{
    if a.len() == 0 {
        assert(a + rest =~= rest);
        assert(take_digits(a + rest) =~= a);
        assert((a + rest).skip(0) =~= rest);
    } else {
        assert((a + rest)[0] == a[0]);
        assert((a + rest).drop_first() =~= a.drop_first() + rest);
        assert forall|i: int| 0 <= i < a.drop_first().len() implies is_digit(
            #[trigger] a.drop_first()[i],
        ) by {
            assert(a.drop_first()[i] == a[i + 1]);
        }
        lemma_take_digits_exact(a.drop_first(), rest);
        assert(take_digits(a + rest) =~= seq![a[0]] + a.drop_first());
        assert(seq![a[0]] + a.drop_first() =~= a);
        assert((a + rest).skip(a.len() as int) =~= rest);
    }
}

proof fn lemma_parse_number_exact(n: u32, rest: Seq<char>)
    requires
        rest.len() == 0 || !is_digit(rest[0]),
    ensures
        parse_number(dec_str(n as nat) + rest) == Some((n as int, rest)),
{
    lemma_dec_str_digits(n as nat);
    lemma_take_digits_exact(dec_str(n as nat), rest);
    lemma_dec_val_of_dec_str(n as nat);
    if n < 10 {
        assert(dec_str(n as nat).len() == 1);
    } else {
        assert(dec_str(n as nat).len() >= 1);
    }
}

proof fn lemma_expect_exact(a: Seq<char>, rest: Seq<char>)
    ensures
        expect(a + rest, a) == Some(rest),
{
    assert((a + rest).take(a.len() as int) =~= a);
    assert((a + rest).skip(a.len() as int) =~= rest);
}

proof fn lemma_parse_string_exact(a: Seq<char>, rest: Seq<char>)
    requires
        json_safe_str(a),
    ensures
        parse_string_body(a + seq!['"'] + rest) == Some((a, rest)),
    decreases a.len(),
{
    let s = a + seq!['"'] + rest;
    if a.len() == 0 {
        assert(s[0] == '"');
        assert(s.drop_first() =~= rest);
        assert(Seq::<char>::empty() =~= a);
    } else {
        assert(s[0] == a[0]);
        assert(a[0] != '"');
        assert(s.drop_first() =~= a.drop_first() + seq!['"'] + rest);
        assert forall|i: int| 0 <= i < a.drop_first().len() implies a.drop_first()[i] != '"'
            && a.drop_first()[i] != '\\' by {
            assert(a.drop_first()[i] == a[i + 1]);
        }
        lemma_parse_string_exact(a.drop_first(), rest);
        assert(seq![a[0]] + a.drop_first() =~= a);
    }
}

proof fn lemma_parse_status_exact(p: ProjectStatusView, rest: Seq<char>)
    requires
        json_safe_status(p),
    ensures
        parse_status(render_status(p) + rest) == Some((p, rest)),
{
    let l1 = "{\"id\":"@;
    let l2 = ",\"name\":\""@;
    let l2q = "\",\"status\":\""@;
    let l3 = ",\"status\":\""@;
    let l4 = "\"}"@;
    let l5 = "}"@;
    reveal_strlit("{\"id\":");
    reveal_strlit(",\"name\":\"");
    reveal_strlit("\",\"status\":\"");
    reveal_strlit(",\"status\":\"");
    reveal_strlit("\"}");
    reveal_strlit("}");
    assert(l2q =~= seq!['"'] + l3);
    assert(l4 =~= seq!['"'] + l5);
    let d = dec_str(p.id as nat);
    let u3 = p.status + (l4 + rest);
    let u2 = p.name + (l2q + u3);
    let u1 = l2 + u2;
    let t1 = d + u1;
    let s = render_status(p) + rest;
    assert(s =~= l1 + t1);
    lemma_expect_exact(l1, t1);
    assert(expect(s, l1) == Some(t1));
    assert(u1[0] == ',');
    assert(!is_digit(','));
    lemma_parse_number_exact(p.id, u1);
    assert(parse_number(t1) == Some((p.id as int, u1)));
    lemma_expect_exact(l2, u2);
    assert(u2 =~= (p.name + seq!['"']) + (l3 + u3));
    lemma_parse_string_exact(p.name, l3 + u3);
    assert(parse_string_body(u2) == Some((p.name, l3 + u3)));
    lemma_expect_exact(l3, u3);
    assert(u3 =~= (p.status + seq!['"']) + (l5 + rest));
    lemma_parse_string_exact(p.status, l5 + rest);
    assert(parse_string_body(u3) == Some((p.status, l5 + rest)));
    lemma_expect_exact(l5, rest);
    assert(parse_status(s) == Some((p, rest)));
}

proof fn lemma_render_status_head(p: ProjectStatusView)
    ensures
        render_status(p).len() > 0,
        render_status(p)[0] == '{',
        '{' != ']',
{
    reveal_strlit("{\"id\":");
    let l1 = "{\"id\":"@;
    assert(l1.len() == 6);
    assert(l1[0] == '{');
    assert(render_status(p)[0] == l1[0]);
}

proof fn lemma_parse_statuses_exact(ps: Seq<ProjectStatusView>, rest: Seq<char>)
    requires
        forall|i: int| 0 <= i < ps.len() ==> json_safe_status(#[trigger] ps[i]),
    ensures
        parse_statuses(render_statuses(ps) + seq![']'] + rest) == Some((ps, rest)),
    decreases ps.len(),
{
    let s = render_statuses(ps) + seq![']'] + rest;
    if ps.len() == 0 {
        assert(s =~= seq![']'] + rest);
        assert(s[0] == ']');
        assert(s.drop_first() =~= rest);
        assert(Seq::<ProjectStatusView>::empty() =~= ps);
    } else if ps.len() == 1 {
        let r = seq![']'] + rest;
        assert(s =~= render_status(ps[0]) + r);
        lemma_render_status_head(ps[0]);
        assert(s[0] == '{');
        lemma_parse_status_exact(ps[0], r);
        assert(parse_status(s) == Some((ps[0], r)));
        assert(r[0] == ']');
        assert(r.drop_first() =~= rest);
        assert(seq![ps[0]] =~= ps);
    } else {
        let tail = render_statuses(ps.drop_first()) + seq![']'] + rest;
        let r = seq![','] + tail;
        assert(s =~= render_status(ps[0]) + r);
        lemma_render_status_head(ps[0]);
        assert(s[0] == '{');
        lemma_parse_status_exact(ps[0], r);
        assert(parse_status(s) == Some((ps[0], r)));
        assert(r[0] == ',');
        assert(s.len() == render_status(ps[0]).len() + r.len());
        assert(r.len() < s.len());
        assert forall|i: int| 0 <= i < ps.drop_first().len() implies json_safe_status(
            #[trigger] ps.drop_first()[i],
        ) by {
            assert(ps.drop_first()[i] == ps[i + 1]);
        }
        lemma_parse_statuses_exact(ps.drop_first(), rest);
        assert(r.drop_first() =~= tail);
        assert(parse_statuses(r.drop_first()) == Some((ps.drop_first(), rest)));
        assert(seq![ps[0]] + ps.drop_first() =~= ps);
    }
}

proof fn lemma_parse_group_exact(g: GroupStatusView, rest: Seq<char>)
    requires
        json_safe_group(g),
    ensures
        parse_group(render_group(g) + rest) == Some((g, rest)),
{
    let l1 = "{\"name\":\""@;
    let l1q = "\",\"id\":"@;
    let l2 = ",\"id\":"@;
    let l3 = ",\"projects\":["@;
    let l4 = "]}"@;
    let l5 = "}"@;
    reveal_strlit("{\"name\":\"");
    reveal_strlit("\",\"id\":");
    reveal_strlit(",\"id\":");
    reveal_strlit(",\"projects\":[");
    reveal_strlit("]}");
    reveal_strlit("}");
    assert(l1q =~= seq!['"'] + l2);
    assert(l4 =~= seq![']'] + l5);
    let d = dec_str(g.id as nat);
    let u4 = render_statuses(g.projects) + (l4 + rest);
    let u3 = l3 + u4;
    let u2 = d + u3;
    let u1 = g.name + (l1q + (u2));
    let s = render_group(g) + rest;
    assert(s =~= l1 + u1);
    lemma_expect_exact(l1, u1);
    assert(expect(s, l1) == Some(u1));
    assert(u1 =~= (g.name + seq!['"']) + (l2 + u2));
    lemma_parse_string_exact(g.name, l2 + u2);
    assert(parse_string_body(u1) == Some((g.name, l2 + u2)));
    lemma_expect_exact(l2, u2);
    assert(u3[0] == ',');
    assert(!is_digit(','));
    lemma_parse_number_exact(g.id, u3);
    assert(parse_number(u2) == Some((g.id as int, u3)));
    lemma_expect_exact(l3, u4);
    assert(u4 =~= render_statuses(g.projects) + seq![']'] + (l5 + rest));
    lemma_parse_statuses_exact(g.projects, l5 + rest);
    assert(parse_statuses(u4) == Some((g.projects, l5 + rest)));
    lemma_expect_exact(l5, rest);
    assert(parse_group(s) == Some((g, rest)));
}

proof fn lemma_render_group_head(g: GroupStatusView)
    ensures
        render_group(g).len() > 0,
        render_group(g)[0] == '{',
{
    reveal_strlit("{\"name\":\"");
    let l1 = "{\"name\":\""@;
    assert(l1.len() == 9);
    assert(l1[0] == '{');
    assert(render_group(g)[0] == l1[0]);
}

proof fn lemma_parse_groups_exact(gs: Seq<GroupStatusView>, rest: Seq<char>)
    requires
        json_safe_report(gs),
    ensures
        parse_groups(render_groups(gs) + seq![']'] + rest) == Some((gs, rest)),
    decreases gs.len(),
{
    let s = render_groups(gs) + seq![']'] + rest;
    if gs.len() == 0 {
        assert(s =~= seq![']'] + rest);
        assert(s[0] == ']');
        assert(s.drop_first() =~= rest);
        assert(Seq::<GroupStatusView>::empty() =~= gs);
    } else if gs.len() == 1 {
        let r = seq![']'] + rest;
        assert(s =~= render_group(gs[0]) + r);
        lemma_render_group_head(gs[0]);
        assert(s[0] == '{');
        lemma_parse_group_exact(gs[0], r);
        assert(parse_group(s) == Some((gs[0], r)));
        assert(r[0] == ']');
        assert(r.drop_first() =~= rest);
        assert(seq![gs[0]] =~= gs);
    } else {
        let tail = render_groups(gs.drop_first()) + seq![']'] + rest;
        let r = seq![','] + tail;
        assert(s =~= render_group(gs[0]) + r);
        lemma_render_group_head(gs[0]);
        assert(s[0] == '{');
        lemma_parse_group_exact(gs[0], r);
        assert(parse_group(s) == Some((gs[0], r)));
        assert(r[0] == ',');
        assert(s.len() == render_group(gs[0]).len() + r.len());
        assert(r.len() < s.len());
        assert forall|i: int| 0 <= i < gs.drop_first().len() implies json_safe_group(
            #[trigger] gs.drop_first()[i],
        ) by {
            assert(gs.drop_first()[i] == gs[i + 1]);
        }
        lemma_parse_groups_exact(gs.drop_first(), rest);
        assert(r.drop_first() =~= tail);
        assert(parse_groups(r.drop_first()) == Some((gs.drop_first(), rest)));
        assert(seq![gs[0]] + gs.drop_first() =~= gs);
    }
}

proof fn lemma_psb_quote_at(t: Seq<char>, q: int)
    requires
        0 <= q < t.len(),
        t[q] == '"',
        forall|j: int| 0 <= j < q ==> t[j] != '"',
    ensures
        parse_string_body(t) == Some((t.take(q), t.skip(q + 1))),
    decreases q,
{
    if q == 0 {
        assert(t.take(0) =~= Seq::<char>::empty());
        assert(t.skip(1) =~= t.drop_first());
    } else {
        assert(t[0] != '"');
        assert forall|j: int| 0 <= j < q - 1 implies t.drop_first()[j] != '"' by {
            assert(t.drop_first()[j] == t[j + 1]);
        }
        assert(t.drop_first()[q - 1] == t[q]);
        lemma_psb_quote_at(t.drop_first(), q - 1);
        assert(seq![t[0]] + t.drop_first().take(q - 1) =~= t.take(q));
        assert(t.drop_first().skip(q) =~= t.skip(q + 1));
    }
}

proof fn lemma_psb_no_quote(t: Seq<char>)
    requires
        forall|j: int| 0 <= j < t.len() ==> t[j] != '"',
    ensures
        parse_string_body(t) is None,
    decreases t.len(),
{
    if t.len() == 0 {
    } else {
        assert(t[0] != '"');
        assert forall|j: int| 0 <= j < t.drop_first().len() implies t.drop_first()[j] != '"' by {
            assert(t.drop_first()[j] == t[j + 1]);
        }
        lemma_psb_no_quote(t.drop_first());
    }
}

proof fn lemma_dec_val_nonneg(ds: Seq<char>)
    ensures
        dec_val(ds) >= 0,
    decreases ds.len(),
{
    if ds.len() == 0 {
    } else {
        lemma_dec_val_nonneg(ds.drop_last());
    }
}

proof fn lemma_dec_val_prefix_mono(t: Seq<char>, j: int, k: int)
    requires
        0 <= j <= k <= t.len(),
    ensures
        dec_val(t.take(j)) <= dec_val(t.take(k)),
    decreases k - j,
{
    if j < k {
        lemma_dec_val_prefix_mono(t, j, k - 1);
        assert(t.take(k).drop_last() =~= t.take(k - 1));
        assert(t.take(k).last() == t[k - 1]);
        lemma_dec_val_nonneg(t.take(k - 1));
    }
}

proof fn lemma_take_digits_props(t: Seq<char>)
    ensures
        take_digits(t).len() <= t.len(),
        take_digits(t) == t.take(take_digits(t).len() as int),
        forall|j: int| 0 <= j < take_digits(t).len() ==> is_digit(#[trigger] t[j]),
        take_digits(t).len() == t.len() || !is_digit(t[take_digits(t).len() as int]),
    decreases t.len(),
{
    if t.len() == 0 || !is_digit(t[0]) {
        assert(t.take(0) =~= Seq::<char>::empty());
    } else {
        lemma_take_digits_props(t.drop_first());
        let l = take_digits(t.drop_first()).len() as int;
        assert(take_digits(t) == seq![t[0]] + take_digits(t.drop_first()));
        assert(take_digits(t).len() == l + 1);
        assert(seq![t[0]] + t.drop_first().take(l) =~= t.take(l + 1));
        assert forall|j: int| 0 <= j < l + 1 implies is_digit(#[trigger] t[j]) by {
            if j > 0 {
                assert(t.drop_first()[j - 1] == t[j]);
            }
        }
        if l + 1 < t.len() {
            assert(t.drop_first()[l] == t[l + 1]);
        }
    }
}

proof fn lemma_take_digits_region(t: Seq<char>, k: int)
    requires
        0 <= k <= t.len(),
        forall|j: int| 0 <= j < k ==> is_digit(#[trigger] t[j]),
        k == t.len() || !is_digit(t[k]),
    ensures
        take_digits(t) == t.take(k),
    decreases t.len(),
{
    if t.len() == 0 {
        assert(t.take(0) =~= Seq::<char>::empty());
    } else if k == 0 {
        assert(t.take(0) =~= Seq::<char>::empty());
    } else {
        assert(is_digit(t[0]));
        assert forall|j: int| 0 <= j < k - 1 implies is_digit(#[trigger] t.drop_first()[j]) by {
            assert(t.drop_first()[j] == t[j + 1]);
        }
        if k < t.len() {
            assert(t.drop_first()[k - 1] == t[k]);
        }
        lemma_take_digits_region(t.drop_first(), k - 1);
        assert(seq![t[0]] + t.drop_first().take(k - 1) =~= t.take(k));
    }
}

fn digit_of(c: char) -> (r: Option<u32>)
    ensures
        match r {
            Some(d) => is_digit(c) && d == digit_val(c) && d <= 9,
            None => !is_digit(c),
        },
{
    if c == '0' {
        Some(0)
    } else if c == '1' {
        Some(1)
    } else if c == '2' {
        Some(2)
    } else if c == '3' {
        Some(3)
    } else if c == '4' {
        Some(4)
    } else if c == '5' {
        Some(5)
    } else if c == '6' {
        Some(6)
    } else if c == '7' {
        Some(7)
    } else if c == '8' {
        Some(8)
    } else if c == '9' {
        Some(9)
    } else {
        None
    }
}

fn expect_lit(s: &str, n: usize, pos: usize, lit: &str) -> (r: Option<usize>)
    requires
        n == s@.len(),
        pos <= n,
    ensures
        match r {
            Some(p2) => expect(s@.skip(pos as int), lit@) == Some(s@.skip(p2 as int)) && pos <= p2
                <= n && p2 == pos + lit@.len(),
            None => expect(s@.skip(pos as int), lit@) is None,
        },
{
    let m = lit.unicode_len();
    if m > n - pos {
        proof {
            assert(s@.skip(pos as int).len() == n - pos);
        }
        return None;
    }
    let mut i: usize = 0;
    while i < m
        invariant
            n == s@.len(),
            pos <= n,
            m == lit@.len(),
            m <= n - pos,
            i <= m,
            forall|j: int| 0 <= j < i ==> s@[pos + j] == lit@[j],
        decreases m - i,
    {
        let c1 = s.get_char(pos + i);
        let c2 = lit.get_char(i);
        if c1 != c2 {
            proof {
                assert(s@.skip(pos as int).take(m as int)[i as int] == s@[pos + i]);
                assert(s@.skip(pos as int).take(m as int) != lit@);
            }
            return None;
        }
        i += 1;
    }
    proof {
        assert(s@.skip(pos as int).take(m as int) =~= lit@);
        assert(s@.skip(pos as int).skip(m as int) =~= s@.skip(pos as int + m as int));
    }
    Some(pos + m)
}

fn scan_string(s: &str, n: usize, pos: usize) -> (r: Option<(String, usize)>)
    requires
        n == s@.len(),
        pos <= n,
    ensures
        match r {
            Some(pair) => parse_string_body(s@.skip(pos as int)) == Some(
                (pair.0@, s@.skip(pair.1 as int)),
            ) && pos < pair.1 <= n,
            None => parse_string_body(s@.skip(pos as int)) is None,
        },
{
    let mut i: usize = pos;
    while i < n
        invariant
            n == s@.len(),
            pos <= i <= n,
            forall|j: int| pos <= j < i ==> s@[j] != '"',
        decreases n - i,
    {
        let c = s.get_char(i);
        if c == '"' {
            let content = s.substring_char(pos, i).to_owned();
            proof {
                let t = s@.skip(pos as int);
                assert forall|j: int| 0 <= j < i - pos implies t[j] != '"' by {
                    assert(t[j] == s@[pos + j]);
                }
                assert(t[i - pos] == s@[i as int]);
                lemma_psb_quote_at(t, i - pos);
                assert(t.take(i - pos) =~= s@.subrange(pos as int, i as int));
                assert(t.skip(i - pos + 1) =~= s@.skip(i as int + 1));
            }
            return Some((content, i + 1));
        }
        i += 1;
    }
    proof {
        let t = s@.skip(pos as int);
        assert forall|j: int| 0 <= j < t.len() implies t[j] != '"' by {
            assert(t[j] == s@[pos + j]);
        }
        lemma_psb_no_quote(t);
    }
    None
}

fn scan_number(s: &str, n: usize, pos: usize) -> (r: Option<(u32, usize)>)
    requires
        n == s@.len(),
        pos <= n,
    ensures
        match r {
            Some(pair) => parse_number(s@.skip(pos as int)) == Some(
                (pair.0 as int, s@.skip(pair.1 as int)),
            ) && pos < pair.1 <= n,
            None => match parse_number(s@.skip(pos as int)) {
                Some(p) => p.0 > u32::MAX as int,
                None => true,
            },
        },
{
    let ghost t: Seq<char> = s@.skip(pos as int);
    let mut i: usize = pos;
    let mut v: u32 = 0;
    let mut stop = false;
    while !stop && i < n
        invariant
            n == s@.len(),
            pos <= i <= n,
            t == s@.skip(pos as int),
            forall|j: int| 0 <= j < i - pos ==> is_digit(#[trigger] t[j]),
            v as int == dec_val(t.take(i - pos)),
            stop ==> i < n && !is_digit(t[i - pos]),
        decreases 2 * (n - i) + (if stop { 0int } else { 1int }),
    {
        let c = s.get_char(i);
        proof {
            assert(t[i - pos] == s@[i as int]);
        }
        match digit_of(c) {
            Some(d) => {
                if v > (u32::MAX - d) / 10 {
                    proof {
                        let m = u32::MAX as int - d;
                        assert(m / 10 * 10 + m % 10 == m);
                        assert(v as int >= m / 10 + 1);
                        assert(v as int * 10 >= (m / 10 + 1) * 10) by (nonlinear_arith)
                            requires
                                v as int >= m / 10 + 1,
                        ;
                        assert(v as int * 10 + d > u32::MAX as int);
                        let cur = i - pos;
                        assert(t.take(cur + 1).drop_last() =~= t.take(cur));
                        assert(t.take(cur + 1).last() == t[cur]);
                        assert(dec_val(t.take(cur + 1)) == v as int * 10 + d);
                        lemma_take_digits_props(t);
                        let len_digits = take_digits(t).len() as int;
                        if len_digits < cur + 1 {
                            assert(is_digit(t[len_digits]));
                            assert(false);
                        }
                        lemma_dec_val_prefix_mono(t, cur + 1, len_digits);
                        assert(dec_val(take_digits(t)) > u32::MAX as int);
                        assert(len_digits > 0);
                    }
                    return None;
                }
                proof {
                    let m = u32::MAX as int - d;
                    assert(m / 10 * 10 + m % 10 == m);
                    assert(v as int * 10 <= m / 10 * 10) by (nonlinear_arith)
                        requires
                            v as int <= m / 10,
                    ;
                    let ghost region = t.take(i - pos);
                    assert(t.take(i - pos + 1).drop_last() =~= region);
                    assert(t.take(i - pos + 1).last() == t[i - pos]);
                }
                v = v * 10 + d;
                i += 1;
            },
            None => {
                stop = true;
            },
        }
    }
    if i == pos {
        proof {
            lemma_take_digits_region(t, 0);
            assert(take_digits(t).len() == 0);
        }
        return None;
    }
    proof {
        lemma_take_digits_region(t, i - pos);
        assert(take_digits(t) == t.take(i - pos));
        assert(take_digits(t).len() == i - pos);
        assert(t.skip(i - pos) =~= s@.skip(i as int));
    }
    Some((v, i))
}

fn parse_status_at(s: &str, n: usize, pos: usize) -> (r: Option<(ProjectStatus, usize)>)
    requires
        n == s@.len(),
        pos <= n,
    ensures
        match r {
            Some(pair) => parse_status(s@.skip(pos as int)) == Some(
                (pair.0@, s@.skip(pair.1 as int)),
            ) && pos < pair.1 <= n,
            None => parse_status(s@.skip(pos as int)) is None,
        },
{
    let p1 = match expect_lit(s, n, pos, "{\"id\":") {
        Some(p) => p,
        None => {
            return None;
        },
    };
    let (id, p2) = match scan_number(s, n, p1) {
        Some(pair) => pair,
        None => {
            return None;
        },
    };
    let p3 = match expect_lit(s, n, p2, ",\"name\":\"") {
        Some(p) => p,
        None => {
            return None;
        },
    };
    let (name, p4) = match scan_string(s, n, p3) {
        Some(pair) => pair,
        None => {
            return None;
        },
    };
    let p5 = match expect_lit(s, n, p4, ",\"status\":\"") {
        Some(p) => p,
        None => {
            return None;
        },
    };
    let (status, p6) = match scan_string(s, n, p5) {
        Some(pair) => pair,
        None => {
            return None;
        },
    };
    let p7 = match expect_lit(s, n, p6, "}") {
        Some(p) => p,
        None => {
            return None;
        },
    };
    let out = ProjectStatus { id, name, status };
    proof {
        assert(parse_status(s@.skip(pos as int)) == Some((out@, s@.skip(p7 as int))));
    }
    Some((out, p7))
}

fn parse_statuses_at(s: &str, n: usize, pos: usize) -> (r: Option<(Vec<ProjectStatus>, usize)>)
    requires
        n == s@.len(),
        pos <= n,
    ensures
        match r {
            Some(pair) => parse_statuses(s@.skip(pos as int)) == Some(
                (crate::model::status_views(pair.0@), s@.skip(pair.1 as int)),
            ) && pos < pair.1 <= n,
            None => parse_statuses(s@.skip(pos as int)) is None,
        },
{
    let mut acc: Vec<ProjectStatus> = Vec::new();
    let mut cur: usize = pos;
    proof {
        assert(crate::model::status_views(acc@) =~= Seq::<ProjectStatusView>::empty());
    }
    loop
        invariant
            n == s@.len(),
            pos <= cur <= n,
            forall|more: Seq<ProjectStatusView>, rr: Seq<char>|
                parse_statuses(s@.skip(cur as int)) == Some((more, rr)) ==> parse_statuses(
                    s@.skip(pos as int),
                ) == Some((crate::model::status_views(acc@) + more, rr)),
            parse_statuses(s@.skip(cur as int)) is None ==> parse_statuses(
                s@.skip(pos as int),
            ) is None,
        decreases n - cur,
    {
        if cur >= n {
            proof {
                assert(s@.skip(cur as int).len() == 0);
            }
            return None;
        }
        let c = s.get_char(cur);
        if c == ']' {
            proof {
                let t = s@.skip(cur as int);
                assert(t[0] == s@[cur as int]);
                assert(t.drop_first() =~= s@.skip(cur as int + 1));
                assert(parse_statuses(t) == Some(
                    (Seq::<ProjectStatusView>::empty(), s@.skip(cur as int + 1)),
                ));
                assert(crate::model::status_views(acc@) + Seq::<ProjectStatusView>::empty()
                    =~= crate::model::status_views(acc@));
            }
            return Some((acc, cur + 1));
        }
        let (p, after) = match parse_status_at(s, n, cur) {
            Some(pair) => pair,
            None => {
                proof {
                    let t = s@.skip(cur as int);
                    assert(t[0] == s@[cur as int]);
                    assert(parse_statuses(t) is None);
                }
                return None;
            },
        };
        if after >= n {
            proof {
                let t = s@.skip(cur as int);
                assert(t[0] == s@[cur as int]);
                assert(s@.skip(after as int).len() == 0);
                assert(parse_statuses(t) is None);
            }
            return None;
        }
        let c2 = s.get_char(after);
        let ghost before: Seq<ProjectStatusView> = crate::model::status_views(acc@);
        if c2 == ',' {
            acc.push(p);
            proof {
                let t = s@.skip(cur as int);
                let rr = s@.skip(after as int);
                assert(t[0] == s@[cur as int]);
                assert(rr[0] == s@[after as int]);
                assert(rr.len() < t.len());
                assert(rr.drop_first() =~= s@.skip(after as int + 1));
                assert(crate::model::status_views(acc@) =~= before.push(p@));
                assert forall|more: Seq<ProjectStatusView>, r2: Seq<char>|
                    parse_statuses(s@.skip(after as int + 1)) == Some((more, r2)) implies
                    parse_statuses(s@.skip(pos as int)) == Some(
                    (crate::model::status_views(acc@) + more, r2),
                ) by {
                    assert(parse_statuses(t) == Some((seq![p@] + more, r2)));
                    assert(before + (seq![p@] + more) =~= before.push(p@) + more);
                }
                if parse_statuses(s@.skip(after as int + 1)) is None {
                    assert(parse_statuses(t) is None);
                }
            }
            cur = after + 1;
        } else if c2 == ']' {
            acc.push(p);
            proof {
                let t = s@.skip(cur as int);
                let rr = s@.skip(after as int);
                assert(t[0] == s@[cur as int]);
                assert(rr[0] == s@[after as int]);
                assert(rr.drop_first() =~= s@.skip(after as int + 1));
                assert(parse_statuses(t) == Some((seq![p@], s@.skip(after as int + 1))));
                assert(before + seq![p@] =~= crate::model::status_views(acc@));
            }
            return Some((acc, after + 1));
        } else {
            proof {
                let t = s@.skip(cur as int);
                let rr = s@.skip(after as int);
                assert(t[0] == s@[cur as int]);
                assert(rr[0] == s@[after as int]);
                assert(parse_statuses(t) is None);
            }
            return None;
        }
    }
}

fn parse_group_at(s: &str, n: usize, pos: usize) -> (r: Option<(GroupStatus, usize)>)
    requires
        n == s@.len(),
        pos <= n,
    ensures
        match r {
            Some(pair) => parse_group(s@.skip(pos as int)) == Some(
                (pair.0@, s@.skip(pair.1 as int)),
            ) && pos < pair.1 <= n,
            None => parse_group(s@.skip(pos as int)) is None,
        },
{
    let p1 = match expect_lit(s, n, pos, "{\"name\":\"") {
        Some(p) => p,
        None => {
            return None;
        },
    };
    let (name, p2) = match scan_string(s, n, p1) {
        Some(pair) => pair,
        None => {
            return None;
        },
    };
    let p3 = match expect_lit(s, n, p2, ",\"id\":") {
        Some(p) => p,
        None => {
            return None;
        },
    };
    let (id, p4) = match scan_number(s, n, p3) {
        Some(pair) => pair,
        None => {
            return None;
        },
    };
    let p5 = match expect_lit(s, n, p4, ",\"projects\":[") {
        Some(p) => p,
        None => {
            return None;
        },
    };
    let (projects, p6) = match parse_statuses_at(s, n, p5) {
        Some(pair) => pair,
        None => {
            return None;
        },
    };
    let p7 = match expect_lit(s, n, p6, "}") {
        Some(p) => p,
        None => {
            return None;
        },
    };
    let out = GroupStatus { name, id, projects };
    proof {
        assert(parse_group(s@.skip(pos as int)) == Some((out@, s@.skip(p7 as int))));
    }
    Some((out, p7))
}

/// Parse a canonical report document, as [`render_report`] writes it. Only a
/// complete canonical document is accepted. The result agrees exactly with
/// the spec-level parser: it succeeds precisely where that parser does, with
/// the same structure.
pub fn parse_report(s: &str) -> (r: Option<Vec<GroupStatus>>)
    ensures
        match r {
            Some(report) => parse_report_spec(s@) == Some(group_status_views(report@)),
            None => parse_report_spec(s@) is None,
        },
{
    let n = s.unicode_len();
    if n == 0 {
        return None;
    }
    let c = s.get_char(0);
    if c != '[' {
        return None;
    }
    let mut acc: Vec<GroupStatus> = Vec::new();
    let mut cur: usize = 1;
    proof {
        assert(group_status_views(acc@) =~= Seq::<GroupStatusView>::empty());
        assert(s@.drop_first() =~= s@.skip(1));
    }
    loop
        invariant
            n == s@.len(),
            1 <= cur <= n,
            s@[0] == '[',
            s@.drop_first() == s@.skip(1),
            forall|more: Seq<GroupStatusView>, rr: Seq<char>|
                parse_groups(s@.skip(cur as int)) == Some((more, rr)) ==> parse_groups(
                    s@.skip(1),
                ) == Some((group_status_views(acc@) + more, rr)),
            parse_groups(s@.skip(cur as int)) is None ==> parse_groups(s@.skip(1)) is None,
        decreases n - cur,
    {
        if cur >= n {
            proof {
                assert(s@.skip(cur as int).len() == 0);
            }
            return None;
        }
        let c = s.get_char(cur);
        if c == ']' {
            proof {
                let t = s@.skip(cur as int);
                assert(t[0] == s@[cur as int]);
                assert(t.drop_first() =~= s@.skip(cur as int + 1));
                assert(parse_groups(t) == Some(
                    (Seq::<GroupStatusView>::empty(), s@.skip(cur as int + 1)),
                ));
                assert(group_status_views(acc@) + Seq::<GroupStatusView>::empty()
                    =~= group_status_views(acc@));
            }
            if cur + 1 == n {
                proof {
                    assert(s@.skip(cur as int + 1).len() == 0);
                    assert(parse_groups(s@.skip(1)) == Some(
                        (group_status_views(acc@), s@.skip(cur as int + 1)),
                    ));
                    assert(parse_report_spec(s@) == Some(group_status_views(acc@)));
                }
                return Some(acc);
            } else {
                proof {
                    assert(s@.skip(cur as int + 1).len() > 0);
                    assert(parse_groups(s@.skip(1)) == Some(
                        (group_status_views(acc@), s@.skip(cur as int + 1)),
                    ));
                    assert(parse_report_spec(s@) is None);
                }
                return None;
            }
        }
        let (g, after) = match parse_group_at(s, n, cur) {
            Some(pair) => pair,
            None => {
                proof {
                    let t = s@.skip(cur as int);
                    assert(t[0] == s@[cur as int]);
                    assert(parse_groups(t) is None);
                }
                return None;
            },
        };
        if after >= n {
            proof {
                let t = s@.skip(cur as int);
                assert(t[0] == s@[cur as int]);
                assert(s@.skip(after as int).len() == 0);
                assert(parse_groups(t) is None);
            }
            return None;
        }
        let c2 = s.get_char(after);
        let ghost before: Seq<GroupStatusView> = group_status_views(acc@);
        if c2 == ',' {
            acc.push(g);
            proof {
                let t = s@.skip(cur as int);
                let rr = s@.skip(after as int);
                assert(t[0] == s@[cur as int]);
                assert(rr[0] == s@[after as int]);
                assert(rr.len() < t.len());
                assert(rr.drop_first() =~= s@.skip(after as int + 1));
                assert(group_status_views(acc@) =~= before.push(g@));
                assert forall|more: Seq<GroupStatusView>, r2: Seq<char>|
                    parse_groups(s@.skip(after as int + 1)) == Some((more, r2)) implies
                    parse_groups(s@.skip(1)) == Some(
                    (group_status_views(acc@) + more, r2),
                ) by {
                    assert(parse_groups(t) == Some((seq![g@] + more, r2)));
                    assert(before + (seq![g@] + more) =~= before.push(g@) + more);
                }
                if parse_groups(s@.skip(after as int + 1)) is None {
                    assert(parse_groups(t) is None);
                }
            }
            cur = after + 1;
        } else if c2 == ']' {
            acc.push(g);
            proof {
                let t = s@.skip(cur as int);
                let rr = s@.skip(after as int);
                assert(t[0] == s@[cur as int]);
                assert(rr[0] == s@[after as int]);
                assert(rr.drop_first() =~= s@.skip(after as int + 1));
                assert(parse_groups(t) == Some((seq![g@], s@.skip(after as int + 1))));
                assert(before + seq![g@] =~= group_status_views(acc@));
            }
            if after + 1 == n {
                proof {
                    assert(s@.skip(after as int + 1).len() == 0);
                    assert(parse_groups(s@.skip(1)) == Some(
                        (group_status_views(acc@), s@.skip(after as int + 1)),
                    ));
                    assert(parse_report_spec(s@) == Some(group_status_views(acc@)));
                }
                return Some(acc);
            } else {
                proof {
                    assert(s@.skip(after as int + 1).len() > 0);
                    assert(parse_groups(s@.skip(1)) == Some(
                        (group_status_views(acc@), s@.skip(after as int + 1)),
                    ));
                    assert(parse_report_spec(s@) is None);
                }
                return None;
            }
        } else {
            proof {
                let t = s@.skip(cur as int);
                let rr = s@.skip(after as int);
                assert(t[0] == s@[cur as int]);
                assert(rr[0] == s@[after as int]);
                assert(parse_groups(t) is None);
            }
            return None;
        }
    }
}

/// Law: the rendering round-trips. Parsing the canonical rendering of any
/// report whose strings are embeddable yields that report back, order and all.
pub proof fn lemma_render_parse_round_trip(gs: Seq<GroupStatusView>)
    requires
        json_safe_report(gs),
    ensures
        parse_report_spec(render_report_spec(gs)) == Some(gs),
{
    let s = render_report_spec(gs);
    assert(s[0] == '[');
    assert(s.drop_first() =~= render_groups(gs) + seq![']'] + Seq::<char>::empty());
    lemma_parse_groups_exact(gs, Seq::empty());
    assert(parse_groups(s.drop_first()) == Some((gs, Seq::<char>::empty())));
}

/// Parse a whole canonical report document, demanding full consumption.
pub open spec fn parse_report_spec(s: Seq<char>) -> Option<Seq<GroupStatusView>> {
    if s.len() == 0 || s[0] != '[' {
        None
    } else {
        match parse_groups(s.drop_first()) {
            None => None,
            Some((gs, r)) => if r.len() == 0 {
                Some(gs)
            } else {
                None
            },
        }
    }
}

} // verus!

