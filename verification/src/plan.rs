use vstd::prelude::*;

use crate::error::AppError;
use crate::team::{get_hist_teams, spec_aliases, team_views, TeamDirectory, TeamView};
use crate::text::{push_char, seq_views};

verus! {

// ---------------------------------------------------------------------------
// Display-name transliteration
// ---------------------------------------------------------------------------

/// The transliteration of one character of a display name: a space
/// becomes an underscore, and the common Latin accent variants of
/// a, c, e, i, o, u and n lose their accent; every other character is
/// kept as it is.
pub open spec fn translit_char(c: char) -> char {
    if c == ' ' {
        '_'
    } else if c == 'à' || c == 'á' || c == 'â' || c == 'ã' || c == 'ä' || c == 'å' {
        'a'
    } else if c == 'ç' {
        'c'
    } else if c == 'è' || c == 'é' || c == 'ê' || c == 'ë' {
        'e'
    } else if c == 'ì' || c == 'í' || c == 'î' || c == 'ï' {
        'i'
    } else if c == 'ò' || c == 'ó' || c == 'ô' || c == 'õ' || c == 'ö' {
        'o'
    } else if c == 'ù' || c == 'ú' || c == 'û' || c == 'ü' {
        'u'
    } else if c == 'ñ' {
        'n'
    } else {
        c
    }
}

/// The resource page name of a display name, character for character.
pub open spec fn spec_page_name(s: Seq<char>) -> Seq<char> {
    Seq::new(s.len(), |i: int| translit_char(s[i]))
}

fn translit(c: char) -> (r: char)
    ensures
        r == translit_char(c),
{
    if c == ' ' {
        '_'
    } else if c == 'à' || c == 'á' || c == 'â' || c == 'ã' || c == 'ä' || c == 'å' {
        'a'
    } else if c == 'ç' {
        'c'
    } else if c == 'è' || c == 'é' || c == 'ê' || c == 'ë' {
        'e'
    } else if c == 'ì' || c == 'í' || c == 'î' || c == 'ï' {
        'i'
    } else if c == 'ò' || c == 'ó' || c == 'ô' || c == 'õ' || c == 'ö' {
        'o'
    } else if c == 'ù' || c == 'ú' || c == 'û' || c == 'ü' {
        'u'
    } else if c == 'ñ' {
        'n'
    } else {
        c
    }
}

/// Turns a team's display name into the resource page name: spaces to
/// underscores, accents stripped.
pub fn format_page_name(s: &str) -> (r: String)
    ensures
        r@ == spec_page_name(s@),
{
    let n = s.unicode_len();
    let mut out = String::new();
    let mut i: usize = 0;
    while i < n
        invariant
            n == s@.len(),
            i <= n,
            out@.len() == i,
            forall|j: int| 0 <= j < i ==> out@[j] == translit_char(s@[j]),
        decreases n - i,
    {
        let c = translit(s.get_char(i));
        push_char(&mut out, c);
        i = i + 1;
    }
    proof {
        assert(out@ =~= spec_page_name(s@));
    }
    out
}

/// Every character is ASCII.
pub open spec fn spec_all_ascii(s: Seq<char>) -> bool {
    forall|i: int| 0 <= i < s.len() ==> (#[trigger] s[i] as u32) < 128
}

/// Decides whether every character of `s` is ASCII.
pub fn all_ascii(s: &str) -> (r: bool)
    ensures
        r == spec_all_ascii(s@),
{
    let n = s.unicode_len();
    let mut i: usize = 0;
    while i < n
        invariant
            n == s@.len(),
            i <= n,
            forall|j: int| 0 <= j < i ==> (#[trigger] s@[j] as u32) < 128,
        decreases n - i,
    {
        if s.get_char(i) as u32 >= 128 {
            return false;
        }
        i = i + 1;
    }
    true
}

// ---------------------------------------------------------------------------
// The ingestion plan
// ---------------------------------------------------------------------------

/// One live team's fetch plan: the team id under which its matches are
/// ingested, the page name its feed is fetched from, and its alias set.
#[derive(Debug)]
pub struct FetchPlan {
    pub team_id: String,
    pub team_name: String,
    pub page_name: String,
    pub alias_ids: Vec<String>,
}

/// The plain values of a fetch plan.
pub struct FetchPlanView {
    pub team_id: Seq<char>,
    pub team_name: Seq<char>,
    pub page_name: Seq<char>,
    pub alias_ids: Seq<Seq<char>>,
}

impl View for FetchPlan {
    type V = FetchPlanView;

    open spec fn view(&self) -> FetchPlanView {
        FetchPlanView {
            team_id: self.team_id@,
            team_name: self.team_name@,
            page_name: self.page_name@,
            alias_ids: seq_views(self.alias_ids@),
        }
    }
}

pub open spec fn plan_views(s: Seq<FetchPlan>) -> Seq<FetchPlanView> {
    Seq::new(s.len(), |i: int| s[i]@)
}

/// The fetch plans demanded by the entries `s`, with alias sets resolved
/// against the whole directory `all`: one plan per live team, in order.
pub open spec fn spec_plans_upto(all: Seq<TeamView>, s: Seq<TeamView>) -> Seq<FetchPlanView>
    decreases s.len(),
{
    if s.len() == 0 {
        Seq::empty()
    } else {
        let rest = spec_plans_upto(all, s.drop_last());
        if s.last().successor_id is None {
            rest.push(
                FetchPlanView {
                    team_id: s.last().team_id,
                    team_name: s.last().team_name,
                    page_name: spec_page_name(s.last().team_name),
                    alias_ids: spec_aliases(all, s.last().team_id),
                },
            )
        } else {
            rest
        }
    }
}

/// The fetch plans of a directory: one per live team, in directory order.
pub open spec fn spec_plans(all: Seq<TeamView>) -> Seq<FetchPlanView> {
    spec_plans_upto(all, all)
}

/// Every team's page name transliterates to pure ASCII.
pub open spec fn all_page_names_ascii(s: Seq<TeamView>) -> bool {
    forall|i: int| 0 <= i < s.len() ==> spec_all_ascii(spec_page_name(#[trigger] s[i].team_name))
}

/// The error text when a page name does not transliterate to ASCII.
pub open spec fn spec_page_name_err_msg(name: Seq<char>) -> Seq<char> {
    "page name is not ascii: "@ + spec_page_name(name)
}

fn page_name_err_msg(page_name: &str) -> (r: String)
    ensures
        r@ == "page name is not ascii: "@ + page_name@,
{
    let mut s = "page name is not ascii: ".to_owned();
    s.append(page_name);
    s
}

/// Plans the ingestion run over a built directory. Every team's page name
/// must transliterate to pure ASCII, or the run aborts; each live team
/// (no successor) then gets one fetch plan, carrying its page name and
/// its alias set, in directory order. Teams with a successor get none:
/// their matches are ingested under their live successor.
pub fn plan_fetches(teams: &TeamDirectory) -> (r: Result<Vec<FetchPlan>, AppError>)
    ensures
        r is Ok <==> all_page_names_ascii(teams.entries()),
        r is Ok ==> plan_views(r->Ok_0@) == spec_plans(teams.entries()),
        r is Err ==> exists|i: int|
            0 <= i < teams.entries().len() && !spec_all_ascii(
                spec_page_name(#[trigger] teams.entries()[i].team_name),
            ) && (forall|j: int|
                0 <= j < i ==> spec_all_ascii(
                    spec_page_name(#[trigger] teams.entries()[j].team_name),
                )) && r->Err_0@ == spec_page_name_err_msg(teams.entries()[i].team_name),
{
    let ghost entries = team_views(teams.teams@);
    let mut out: Vec<FetchPlan> = Vec::new();
    let mut i: usize = 0;
    while i < teams.teams.len()
        invariant
            entries == team_views(teams.teams@),
            i <= teams.teams@.len(),
            forall|j: int|
                0 <= j < i ==> spec_all_ascii(spec_page_name(#[trigger] entries[j].team_name)),
            plan_views(out@) == spec_plans_upto(entries, entries.take(i as int)),
        decreases teams.teams@.len() - i,
    {
        proof {
            assert(entries[i as int] == teams.teams@[i as int]@);
            assert(entries.take(i + 1 as int).drop_last() =~= entries.take(i as int));
            assert(entries.take(i + 1 as int).last() == entries[i as int]);
        }
        let t = &teams.teams[i];
        let page_name = format_page_name(t.team_name.as_str());
        if !all_ascii(page_name.as_str()) {
            let err = AppError::new(page_name_err_msg(page_name.as_str()).as_str());
            proof {
                let w = i as int;
                assert(err@ == spec_page_name_err_msg(entries[w].team_name));
                assert(0 <= w < entries.len() && !spec_all_ascii(
                    spec_page_name(entries[w].team_name),
                ) && (forall|j: int|
                    0 <= j < w ==> spec_all_ascii(
                        spec_page_name(#[trigger] entries[j].team_name),
                    )) && err@ == spec_page_name_err_msg(entries[w].team_name));
                assert(exists|ii: int|
                    0 <= ii < entries.len() && !spec_all_ascii(
                        spec_page_name(#[trigger] entries[ii].team_name),
                    ) && (forall|j: int|
                        0 <= j < ii ==> spec_all_ascii(
                            spec_page_name(#[trigger] entries[j].team_name),
                        )) && err@ == spec_page_name_err_msg(entries[ii].team_name));
                assert(!all_page_names_ascii(entries));
            }
            return Err(err);
        }
        let live = t.successor_id.is_none();
        if live {
            let aliases = get_hist_teams(t.team_id.as_str(), teams);
            let plan = FetchPlan {
                team_id: t.team_id.clone(),
                team_name: t.team_name.clone(),
                page_name,
                alias_ids: aliases,
            };
            let ghost pv = plan@;
            let ghost old_out = out@;
            out.push(plan);
            proof {
                let prev = spec_plans_upto(entries, entries.take(i as int));
                assert(old_out.len() == prev.len()) by {
                    assert(plan_views(old_out).len() == old_out.len());
                }
                assert(out@ == old_out.push(out@.last()));
                assert(out@.last()@ == pv);
                assert(pv == (FetchPlanView {
                    team_id: entries[i as int].team_id,
                    team_name: entries[i as int].team_name,
                    page_name: spec_page_name(entries[i as int].team_name),
                    alias_ids: spec_aliases(entries, entries[i as int].team_id),
                }));
                assert(spec_plans_upto(entries, entries.take(i + 1 as int)) == prev.push(pv));
                assert forall|k: int|
                    0 <= k < out@.len() implies plan_views(out@)[k] == spec_plans_upto(
                    entries,
                    entries.take(i + 1 as int),
                )[k] by {
                    if k < old_out.len() {
                        assert(out@[k] == old_out[k]);
                        assert(plan_views(old_out)[k] == old_out[k]@);
                        assert(plan_views(old_out)[k] == prev[k]);
                        assert(prev.push(pv)[k] == prev[k]);
                    } else {
                        assert(out@[k] == out@.last());
                        assert(plan_views(out@)[k] == pv);
                    }
                }
                assert(plan_views(out@) =~~= spec_plans_upto(
                    entries,
                    entries.take(i + 1 as int),
                ));
            }
        } else {
            proof {
                assert(entries[i as int].successor_id is Some);
                assert(plan_views(out@) =~~= spec_plans_upto(
                    entries,
                    entries.take(i + 1 as int),
                ));
            }
        }
        i = i + 1;
    }
    proof {
        assert(entries.take(teams.teams@.len() as int) =~= entries);
    }
    Ok(out)
}

} // verus!
