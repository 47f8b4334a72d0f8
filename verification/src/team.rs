use vstd::prelude::*;

use crate::error::AppError;
use crate::text::{seq_views, spec_lines, spec_split, split_char, split_lines, str_eq};

verus! {

// ---------------------------------------------------------------------------
// Team ids
// ---------------------------------------------------------------------------

/// What char::is_uppercase returns for `c`; a function of the character
/// alone.
pub uninterp spec fn uppercase_char(c: char) -> bool;

/// Relies on char::is_uppercase: true exactly for the characters with the
/// Unicode uppercase property, which among the ASCII characters are 'A'
/// through 'Z'.
#[verifier::external_body]
fn char_is_uppercase(c: char) -> (r: bool)
    ensures
        r == uppercase_char(c),
        (c as u32) < 128 ==> r == (('A' as u32) <= (c as u32) && (c as u32) <= ('Z' as u32)),
{
    c.is_uppercase()
}

/// A valid team id: exactly two characters, both uppercase letters.
pub open spec fn spec_is_team_id(s: Seq<char>) -> bool {
    s.len() == 2 && (forall|i: int| 0 <= i < s.len() ==> uppercase_char(s[i]))
}

/// Decides whether `s` is a valid team id: true exactly when `s` has two
/// characters and both are uppercase letters.
pub fn is_team_id(s: &str) -> (r: bool)
    ensures
        r == spec_is_team_id(s@),
{
    let n = s.unicode_len();
    if n != 2 {
        return false;
    }
    let ok0 = char_is_uppercase(s.get_char(0));
    let ok1 = char_is_uppercase(s.get_char(1));
    proof {
        if ok0 && ok1 {
            assert forall|i: int| 0 <= i < s@.len() implies uppercase_char(s@[i]) by {
                if i == 0 {
                } else {
                    assert(i == 1);
                }
            }
        }
    }
    ok0 && ok1
}

// ---------------------------------------------------------------------------
// Teams and the team directory
// ---------------------------------------------------------------------------

/// One team of the directory: its id, display name, and the id of the team
/// it was renamed or merged into, if any. A team without a successor is
/// "live".
#[derive(Debug)]
pub struct Team {
    pub team_id: String,
    pub team_name: String,
    pub successor_id: Option<String>,
}

/// The plain values of a team entry.
pub struct TeamView {
    pub team_id: Seq<char>,
    pub team_name: Seq<char>,
    pub successor_id: Option<Seq<char>>,
}

impl View for Team {
    type V = TeamView;

    open spec fn view(&self) -> TeamView {
        TeamView {
            team_id: self.team_id@,
            team_name: self.team_name@,
            successor_id: if self.successor_id is Some {
                Some(self.successor_id->Some_0@)
            } else {
                None
            },
        }
    }
}

/// The entry views of a sequence of teams.
pub open spec fn team_views(s: Seq<Team>) -> Seq<TeamView> {
    Seq::new(s.len(), |i: int| s[i]@)
}

/// The team with id `id`, looked up from the end of the sequence (the
/// latest entry wins; with unique ids, the only entry).
pub open spec fn seq_find_team(s: Seq<TeamView>, id: Seq<char>) -> Option<TeamView>
    decreases s.len(),
{
    if s.len() == 0 {
        None
    } else if s.last().team_id == id {
        Some(s.last())
    } else {
        seq_find_team(s.drop_last(), id)
    }
}

proof fn lemma_seq_find_none(s: Seq<TeamView>, id: Seq<char>)
    requires
        forall|k: int| 0 <= k < s.len() ==> s[k].team_id != id,
    ensures
        seq_find_team(s, id) is None,
    decreases s.len(),
{
    if s.len() > 0 {
        lemma_seq_find_none(s.drop_last(), id);
    }
}

proof fn lemma_seq_find_present(s: Seq<TeamView>, j: int, id: Seq<char>)
    requires
        0 <= j < s.len(),
        s[j].team_id == id,
    ensures
        seq_find_team(s, id) is Some,
    decreases s.len(),
{
    if j < s.len() - 1 && s.last().team_id != id {
        lemma_seq_find_present(s.drop_last(), j, id);
    }
}

/// Replacing the one entry that carries `t.team_id` makes lookups of that
/// id find `t` and leaves every other lookup unchanged.
proof fn lemma_seq_find_update(s: Seq<TeamView>, j: int, t: TeamView, id: Seq<char>)
    requires
        0 <= j < s.len(),
        s[j].team_id == t.team_id,
        forall|k: int| 0 <= k < s.len() && k != j ==> s[k].team_id != t.team_id,
    ensures
        seq_find_team(s.update(j, t), id) == (if id == t.team_id {
            Some(t)
        } else {
            seq_find_team(s, id)
        }),
    decreases s.len(),
{
    if j == s.len() - 1 {
        assert(s.update(j, t).drop_last() =~= s.drop_last());
        assert(s.update(j, t).last() == t);
        if id == t.team_id {
        } else {
            assert(seq_find_team(s.update(j, t), id) == seq_find_team(s.drop_last(), id));
        }
    } else {
        assert(s.update(j, t).drop_last() =~= s.drop_last().update(j, t));
        assert(s.update(j, t).last() == s.last());
        lemma_seq_find_update(s.drop_last(), j, t, id);
        assert(s.last().team_id != t.team_id);
    }
}

/// The directory: one entry per team id.
#[derive(Debug)]
pub struct TeamDirectory {
    pub teams: Vec<Team>,
}

impl TeamDirectory {
    /// Ids are unique across the directory.
    pub open spec fn wf(self) -> bool {
        forall|i: int, j: int|
            0 <= i < j < self.teams@.len() ==> self.teams@[i]@.team_id != self.teams@[j]@.team_id
    }

    pub open spec fn entries(self) -> Seq<TeamView> {
        team_views(self.teams@)
    }

    /// The entry of the team whose id is `id`, if any.
    pub open spec fn spec_get(self, id: Seq<char>) -> Option<TeamView> {
        seq_find_team(self.entries(), id)
    }
}

// ---------------------------------------------------------------------------
// Building the directory from the two feeds
// ---------------------------------------------------------------------------

/// A team-list row qualifies when it has at least two tab-separated fields
/// and its first field is a valid team id.
pub open spec fn team_row_qualifies(line: Seq<char>) -> bool {
    let f = spec_split(line, '\t');
    f.len() >= 2 && spec_is_team_id(f[0])
}

/// The directory entry for `id` produced by the team-list lines alone:
/// the last qualifying row with that id wins, and no successor is set.
pub open spec fn spec_team_entry(lines: Seq<Seq<char>>, id: Seq<char>) -> Option<TeamView>
    decreases lines.len(),
{
    if lines.len() == 0 {
        None
    } else {
        let f = spec_split(lines.last(), '\t');
        if team_row_qualifies(lines.last()) && f[0] == id {
            Some(TeamView { team_id: f[0], team_name: f[1], successor_id: None })
        } else {
            spec_team_entry(lines.drop_last(), id)
        }
    }
}

/// A history row qualifies when it has at least two tab-separated fields
/// and both are valid team ids.
pub open spec fn hist_row_qualifies(line: Seq<char>) -> bool {
    let f = spec_split(line, '\t');
    f.len() >= 2 && spec_is_team_id(f[0]) && spec_is_team_id(f[1])
}

/// A qualifying history row must name, in its first field, a team that the
/// team list produced; referencing an unknown team is fatal.
pub open spec fn hist_row_ok(tl: Seq<Seq<char>>, line: Seq<char>) -> bool {
    !hist_row_qualifies(line) || spec_team_entry(tl, spec_split(line, '\t')[0]) is Some
}

pub open spec fn all_hist_rows_ok(tl: Seq<Seq<char>>, hl: Seq<Seq<char>>) -> bool {
    forall|i: int| 0 <= i < hl.len() ==> hist_row_ok(tl, #[trigger] hl[i])
}

/// The directory entry for `id` after the history lines are applied in
/// order: each qualifying row sets the successor of the team named by its
/// first field to the id in its second field.
pub open spec fn spec_dir_entry(
    tl: Seq<Seq<char>>,
    hl: Seq<Seq<char>>,
    id: Seq<char>,
) -> Option<TeamView>
    decreases hl.len(),
{
    if hl.len() == 0 {
        spec_team_entry(tl, id)
    } else {
        let f = spec_split(hl.last(), '\t');
        let prev = spec_dir_entry(tl, hl.drop_last(), id);
        if hist_row_qualifies(hl.last()) && f[0] == id && prev is Some {
            Some(
                TeamView {
                    team_id: prev->Some_0.team_id,
                    team_name: prev->Some_0.team_name,
                    successor_id: Some(f[1]),
                },
            )
        } else {
            prev
        }
    }
}

/// Applying history rows never adds or removes entries.
proof fn lemma_dir_entry_same_domain(tl: Seq<Seq<char>>, hl: Seq<Seq<char>>, id: Seq<char>)
    ensures
        spec_dir_entry(tl, hl, id) is Some <==> spec_team_entry(tl, id) is Some,
    decreases hl.len(),
{
    if hl.len() > 0 {
        lemma_dir_entry_same_domain(tl, hl.drop_last(), id);
    }
}

/// The error text for a history row that names an unknown team.
pub open spec fn spec_hist_err_msg(id: Seq<char>) -> Seq<char> {
    "unknown team id in team history: "@ + id
}

fn hist_err_msg(id: &str) -> (r: String)
    ensures
        r@ == spec_hist_err_msg(id@),
{
    let mut s = "unknown team id in team history: ".to_owned();
    s.append(id);
    s
}

/// The index of the team whose id is `id`, if any.
fn find_team_index(teams: &Vec<Team>, id: &str) -> (r: Option<usize>)
    ensures
        r is Some ==> r->Some_0 < teams@.len() && teams@[r->Some_0 as int]@.team_id == id@,
        r is None ==> forall|p: int| 0 <= p < teams@.len() ==> teams@[p]@.team_id != id@,
{
    let mut k: usize = 0;
    while k < teams.len()
        invariant
            k <= teams.len(),
            forall|p: int| 0 <= p < k ==> teams@[p]@.team_id != id@,
        decreases teams.len() - k,
    {
        if str_eq(teams[k].team_id.as_str(), id) {
            return Some(k);
        }
        k = k + 1;
    }
    None
}

/// Builds the team directory from the team-list feed and the team-history
/// feed. Qualifying team rows create entries, last one per id winning;
/// qualifying history rows then set successor links. A history row that
/// names an unknown team aborts the build.
pub fn get_teams(team_text: &str, hist_text: &str) -> (r: Result<TeamDirectory, AppError>)
    ensures
        ({
            let tl = spec_lines(team_text@);
            let hl = spec_lines(hist_text@);
            &&& (r is Ok <==> all_hist_rows_ok(tl, hl))
            &&& r is Ok ==> {
                &&& r->Ok_0.wf()
                &&& forall|id: Seq<char>|
                    r->Ok_0.spec_get(id) == #[trigger] spec_dir_entry(tl, hl, id)
            }
            &&& r is Err ==> exists|i: int|
                0 <= i < hl.len() && !hist_row_ok(tl, #[trigger] hl[i]) && (forall|j: int|
                    0 <= j < i ==> hist_row_ok(tl, #[trigger] hl[j])) && r->Err_0@
                    == spec_hist_err_msg(spec_split(hl[i], '\t')[0])
        }),
{
    let ghost tl = spec_lines(team_text@);
    let ghost hl = spec_lines(hist_text@);
    let t_lines = split_lines(team_text);
    let h_lines = split_lines(hist_text);
    let mut teams: Vec<Team> = Vec::new();

    let mut i: usize = 0;
    while i < t_lines.len()
        invariant
            seq_views(t_lines@) == tl,
            forall|p: int, q: int|
                0 <= p < q < teams@.len() ==> teams@[p]@.team_id != teams@[q]@.team_id,
            forall|id: Seq<char>|
                seq_find_team(team_views(teams@), id) == #[trigger] spec_team_entry(
                    tl.take(i as int),
                    id,
                ),
            i <= t_lines.len(),
        decreases t_lines.len() - i,
    {
        proof {
            assert(seq_views(t_lines@)[i as int] == t_lines@[i as int]@);
            assert(tl.take(i + 1 as int).drop_last() =~= tl.take(i as int));
            assert(tl.take(i + 1 as int).last() == tl[i as int]);
        }
        let fields = split_char(&t_lines[i], '\t');
        proof {
            assert(seq_views(fields@) == spec_split(tl[i as int], '\t'));
        }
        let mut qualifies = false;
        if fields.len() >= 2 {
            proof {
                assert(seq_views(fields@)[0] == fields@[0]@);
                assert(seq_views(fields@)[1] == fields@[1]@);
            }
            qualifies = is_team_id(fields[0].as_str());
        }
        proof {
            assert(qualifies == team_row_qualifies(tl[i as int]));
        }
        if qualifies {
            let team = Team {
                team_id: fields[0].clone(),
                team_name: fields[1].clone(),
                successor_id: None,
            };
            let ghost tv = team@;
            let found = find_team_index(&teams, team.team_id.as_str());
            let ghost old_views = team_views(teams@);
            match found {
                Some(j) => {
                    proof {
                        assert(old_views[j as int].team_id == tv.team_id);
                        assert(forall|p: int|
                            0 <= p < old_views.len() && p != j ==> old_views[p].team_id
                                != tv.team_id);
                    }
                    teams.remove(j);
                    teams.insert(j, team);
                    proof {
                        assert(team_views(teams@) =~~= old_views.update(j as int, tv));
                        assert forall|id: Seq<char>|
                            seq_find_team(team_views(teams@), id) == #[trigger] spec_team_entry(
                                tl.take(i + 1 as int),
                                id,
                            ) by {
                            lemma_seq_find_update(old_views, j as int, tv, id);
                            assert(seq_find_team(old_views, id) == spec_team_entry(
                                tl.take(i as int),
                                id,
                            ));
                            let f = spec_split(tl[i as int], '\t');
                            assert(f[0] == tv.team_id);
                            assert(f[1] == tv.team_name);
                            if id == tv.team_id {
                                assert((TeamView {
                                    team_id: f[0],
                                    team_name: f[1],
                                    successor_id: None,
                                }) == tv);
                                assert(spec_team_entry(tl.take(i + 1 as int), id) == Some(tv));
                            } else {
                                assert(spec_team_entry(tl.take(i + 1 as int), id)
                                    == spec_team_entry(tl.take(i as int), id));
                            }
                        }
                    }
                },
                None => {
                    proof {
                        assert(forall|p: int|
                            0 <= p < old_views.len() ==> old_views[p].team_id != tv.team_id);
                    }
                    teams.push(team);
                    proof {
                        assert(team_views(teams@) =~~= old_views.push(tv));
                        assert forall|id: Seq<char>|
                            seq_find_team(team_views(teams@), id) == #[trigger] spec_team_entry(
                                tl.take(i + 1 as int),
                                id,
                            ) by {
                            assert(team_views(teams@).drop_last() =~= old_views);
                            assert(team_views(teams@).last() == tv);
                            assert(seq_find_team(old_views, id) == spec_team_entry(
                                tl.take(i as int),
                                id,
                            ));
                            let f = spec_split(tl[i as int], '\t');
                            assert(f[0] == tv.team_id);
                            assert(f[1] == tv.team_name);
                            if id == tv.team_id {
                                lemma_seq_find_none(old_views, id);
                                assert(seq_find_team(team_views(teams@), id) == Some(tv));
                                assert((TeamView {
                                    team_id: f[0],
                                    team_name: f[1],
                                    successor_id: None,
                                }) == tv);
                                assert(spec_team_entry(tl.take(i + 1 as int), id) == Some(tv));
                            } else {
                                assert(seq_find_team(team_views(teams@), id) == seq_find_team(
                                    old_views,
                                    id,
                                ));
                                assert(spec_team_entry(tl.take(i + 1 as int), id)
                                    == spec_team_entry(tl.take(i as int), id));
                            }
                        }
                    }
                },
            }
        } else {
            proof {
                assert(!team_row_qualifies(tl[i as int]));
                assert forall|id: Seq<char>|
                    seq_find_team(team_views(teams@), id) == #[trigger] spec_team_entry(
                        tl.take(i + 1 as int),
                        id,
                    ) by {
                    assert(seq_find_team(team_views(teams@), id) == spec_team_entry(
                        tl.take(i as int),
                        id,
                    ));
                    assert(spec_team_entry(tl.take(i + 1 as int), id) == spec_team_entry(
                        tl.take(i as int),
                        id,
                    ));
                }
            }
        }
        i = i + 1;
    }
    proof {
        assert(tl.take(t_lines@.len() as int) =~= tl);
    }

    let mut i: usize = 0;
    while i < h_lines.len()
        invariant
            tl == spec_lines(team_text@),
            hl == spec_lines(hist_text@),
            seq_views(h_lines@) == hl,
            forall|p: int, q: int|
                0 <= p < q < teams@.len() ==> teams@[p]@.team_id != teams@[q]@.team_id,
            forall|id: Seq<char>|
                seq_find_team(team_views(teams@), id) == #[trigger] spec_dir_entry(
                    tl,
                    hl.take(i as int),
                    id,
                ),
            all_hist_rows_ok(tl, hl.take(i as int)),
            i <= h_lines.len(),
        decreases h_lines.len() - i,
    {
        proof {
            assert(seq_views(h_lines@)[i as int] == h_lines@[i as int]@);
            assert(hl.take(i + 1 as int).drop_last() =~= hl.take(i as int));
            assert(hl.take(i + 1 as int).last() == hl[i as int]);
        }
        let fields = split_char(&h_lines[i], '\t');
        proof {
            assert(seq_views(fields@) == spec_split(hl[i as int], '\t'));
        }
        let mut qualifies = false;
        if fields.len() >= 2 {
            proof {
                assert(seq_views(fields@)[0] == fields@[0]@);
                assert(seq_views(fields@)[1] == fields@[1]@);
            }
            qualifies = is_team_id(fields[0].as_str()) && is_team_id(fields[1].as_str());
        }
        proof {
            assert(qualifies == hist_row_qualifies(hl[i as int]));
        }
        if qualifies {
            let found = find_team_index(&teams, fields[0].as_str());
            let ghost old_views = team_views(teams@);
            match found {
                Some(j) => {
                    let updated = Team {
                        team_id: teams[j].team_id.clone(),
                        team_name: teams[j].team_name.clone(),
                        successor_id: Some(fields[1].clone()),
                    };
                    let ghost tv = updated@;
                    proof {
                        assert(old_views[j as int].team_id == tv.team_id);
                        assert(forall|p: int|
                            0 <= p < old_views.len() && p != j ==> old_views[p].team_id
                                != tv.team_id);
                        lemma_seq_find_present(old_views, j as int, tv.team_id);
                        lemma_dir_entry_same_domain(tl, hl.take(i as int), tv.team_id);
                        assert(hist_row_ok(tl, hl[i as int]));
                    }
                    teams.remove(j);
                    teams.insert(j, updated);
                    proof {
                        assert(team_views(teams@) =~~= old_views.update(j as int, tv));
                        assert forall|id: Seq<char>|
                            seq_find_team(team_views(teams@), id) == #[trigger] spec_dir_entry(
                                tl,
                                hl.take(i + 1 as int),
                                id,
                            ) by {
                            lemma_seq_find_update(old_views, j as int, tv, id);
                            assert(seq_find_team(old_views, id) == spec_dir_entry(
                                tl,
                                hl.take(i as int),
                                id,
                            ));
                            let f = spec_split(hl[i as int], '\t');
                            assert(f[0] == tv.team_id);
                            assert(f[1] == tv.successor_id->Some_0);
                            if id == tv.team_id {
                                let prev = spec_dir_entry(tl, hl.take(i as int), id);
                                lemma_seq_find_unique(old_views, j as int, id);
                                assert(prev == Some(old_views[j as int]));
                                assert(old_views[j as int].team_id == tv.team_id);
                                assert(old_views[j as int].team_name == tv.team_name);
                                assert(spec_dir_entry(tl, hl.take(i + 1 as int), id) == Some(
                                    tv,
                                ));
                            } else {
                                assert(spec_dir_entry(tl, hl.take(i + 1 as int), id)
                                    == spec_dir_entry(tl, hl.take(i as int), id));
                            }
                        }
                        assert forall|p: int|
                            0 <= p < i + 1 implies hist_row_ok(
                            tl,
                            #[trigger] hl.take(i + 1 as int)[p],
                        ) by {
                            assert(hl.take(i + 1 as int)[p] == hl[p]);
                            if p < i {
                                assert(hl.take(i as int)[p] == hl[p]);
                                assert(hist_row_ok(tl, hl.take(i as int)[p]));
                            } else {
                                assert(hl[p] == hl[i as int]);
                            }
                        }
                        assert(all_hist_rows_ok(tl, hl.take(i + 1 as int)));
                    }
                },
                None => {
                    let msg = hist_err_msg(fields[0].as_str());
                    let err = AppError::new(msg.as_str());
                    proof {
                        assert(i < hl.len());
                        lemma_seq_find_none(old_views, fields@[0]@);
                        assert(seq_find_team(old_views, fields@[0]@) == spec_dir_entry(
                            tl,
                            hl.take(i as int),
                            fields@[0]@,
                        ));
                        lemma_dir_entry_same_domain(tl, hl.take(i as int), fields@[0]@);
                        assert(spec_team_entry(tl, fields@[0]@) is None);
                        assert(spec_split(hl[i as int], '\t')[0] == fields@[0]@);
                        assert(!hist_row_ok(tl, hl[i as int]));
                        assert(err@ == spec_hist_err_msg(spec_split(hl[i as int], '\t')[0]));
                        let w = i as int;
                        assert forall|j: int| 0 <= j < w implies hist_row_ok(
                            tl,
                            #[trigger] hl[j],
                        ) by {
                            assert(hl.take(w)[j] == hl[j]);
                            assert(hist_row_ok(tl, hl.take(w)[j]));
                        }
                        assert(0 <= w < hl.len() && !hist_row_ok(tl, hl[w]) && (forall|j: int|
                            0 <= j < w ==> hist_row_ok(tl, #[trigger] hl[j])) && err@
                            == spec_hist_err_msg(spec_split(hl[w], '\t')[0]));
                        assert(exists|ii: int|
                            0 <= ii < hl.len() && !hist_row_ok(tl, #[trigger] hl[ii]) && (
                            forall|j: int| 0 <= j < ii ==> hist_row_ok(tl, #[trigger] hl[j]))
                                && err@ == spec_hist_err_msg(spec_split(hl[ii], '\t')[0]));
                        assert(!all_hist_rows_ok(tl, hl));
                    }
                    return Err(err);
                },
            }
        } else {
            proof {
                assert(!hist_row_qualifies(hl[i as int]));
                assert forall|id: Seq<char>|
                    seq_find_team(team_views(teams@), id) == #[trigger] spec_dir_entry(
                        tl,
                        hl.take(i + 1 as int),
                        id,
                    ) by {
                    assert(seq_find_team(team_views(teams@), id) == spec_dir_entry(
                        tl,
                        hl.take(i as int),
                        id,
                    ));
                    assert(spec_dir_entry(tl, hl.take(i + 1 as int), id) == spec_dir_entry(
                        tl,
                        hl.take(i as int),
                        id,
                    ));
                }
                assert forall|p: int|
                    0 <= p < i + 1 implies hist_row_ok(
                    tl,
                    #[trigger] hl.take(i + 1 as int)[p],
                ) by {
                    assert(hl.take(i + 1 as int)[p] == hl[p]);
                    if p < i {
                        assert(hl.take(i as int)[p] == hl[p]);
                        assert(hist_row_ok(tl, hl.take(i as int)[p]));
                    } else {
                        assert(hl[p] == hl[i as int]);
                    }
                }
                assert(all_hist_rows_ok(tl, hl.take(i + 1 as int)));
            }
        }
        i = i + 1;
    }
    proof {
        assert(hl.take(h_lines@.len() as int) =~= hl);
    }
    Ok(TeamDirectory { teams })
}

// ---------------------------------------------------------------------------
// Alias resolution
// ---------------------------------------------------------------------------

/// Membership in the alias set of `id`: the team points at `id` as its
/// successor, or is `id` itself.
pub open spec fn alias_cond(t: TeamView, id: Seq<char>) -> bool {
    t.successor_id == Some(id) || t.team_id == id
}

/// The alias ids of `id` across the entries `s`, in entry order.
pub open spec fn spec_aliases(s: Seq<TeamView>, id: Seq<char>) -> Seq<Seq<char>>
    decreases s.len(),
{
    if s.len() == 0 {
        Seq::empty()
    } else {
        let rest = spec_aliases(s.drop_last(), id);
        if alias_cond(s.last(), id) {
            rest.push(s.last().team_id)
        } else {
            rest
        }
    }
}

/// Computes the alias set of team `id`: the ids of every team whose
/// successor is `id`, together with `id` itself where present.
pub fn get_hist_teams(id: &str, teams: &TeamDirectory) -> (r: Vec<String>)
    ensures
        seq_views(r@) == spec_aliases(teams.entries(), id@),
{
    let mut out: Vec<String> = Vec::new();
    let mut i: usize = 0;
    while i < teams.teams.len()
        invariant
            i <= teams.teams@.len(),
            seq_views(out@) == spec_aliases(team_views(teams.teams@).take(i as int), id@),
        decreases teams.teams@.len() - i,
    {
        proof {
            assert(team_views(teams.teams@).take(i + 1 as int).drop_last() =~= team_views(
                teams.teams@,
            ).take(i as int));
            assert(team_views(teams.teams@).take(i + 1 as int).last() == teams.teams@[
                i as int]@);
        }
        let t = &teams.teams[i];
        let succ_matches = if let Some(s) = &t.successor_id {
            str_eq(s.as_str(), id)
        } else {
            false
        };
        let cond = succ_matches || str_eq(t.team_id.as_str(), id);
        proof {
            assert(cond == alias_cond(teams.teams@[i as int]@, id@));
        }
        if cond {
            out.push(t.team_id.clone());
        }
        proof {
            assert(seq_views(out@) =~~= spec_aliases(
                team_views(teams.teams@).take(i + 1 as int),
                id@,
            ));
        }
        i = i + 1;
    }
    proof {
        assert(team_views(teams.teams@).take(teams.teams@.len() as int) =~= team_views(
            teams.teams@,
        ));
    }
    out
}

/// A team's alias set contains the team itself, whenever the directory
/// holds an entry for it.
pub proof fn lemma_aliases_contain_self(s: Seq<TeamView>, id: Seq<char>)
    requires
        seq_find_team(s, id) is Some,
    ensures
        spec_aliases(s, id).contains(id),
    decreases s.len(),
{
    if s.len() > 0 {
        let rest = spec_aliases(s.drop_last(), id);
        if s.last().team_id == id {
            assert(alias_cond(s.last(), id));
            assert(spec_aliases(s, id)[spec_aliases(s, id).len() - 1] == id);
        } else {
            lemma_aliases_contain_self(s.drop_last(), id);
            let k = choose|k: int| 0 <= k < rest.len() && rest[k] == id;
            if alias_cond(s.last(), id) {
                assert(spec_aliases(s, id)[k] == id);
            } else {
                assert(spec_aliases(s, id)[k] == id);
            }
        }
    }
}

// ---------------------------------------------------------------------------
// Directory laws
// ---------------------------------------------------------------------------

/// Building the directory twice from the same two feeds yields identical
/// directories: every lookup agrees, entry for entry.
pub proof fn lemma_build_idempotent(
    team_text: Seq<char>,
    hist_text: Seq<char>,
    d1: TeamDirectory,
    d2: TeamDirectory,
)
    requires
        forall|id: Seq<char>|
            d1.spec_get(id) == #[trigger] spec_dir_entry(
                spec_lines(team_text),
                spec_lines(hist_text),
                id,
            ),
        forall|id: Seq<char>|
            d2.spec_get(id) == #[trigger] spec_dir_entry(
                spec_lines(team_text),
                spec_lines(hist_text),
                id,
            ),
    ensures
        forall|id: Seq<char>| #[trigger] d1.spec_get(id) == d2.spec_get(id),
{
    assert forall|id: Seq<char>| #[trigger] d1.spec_get(id) == d2.spec_get(id) by {
        assert(d1.spec_get(id) == spec_dir_entry(
            spec_lines(team_text),
            spec_lines(hist_text),
            id,
        ));
    }
}

/// Entries produced by the team list alone never carry a successor.
proof fn lemma_team_entry_no_successor(tl: Seq<Seq<char>>, id: Seq<char>)
    ensures
        spec_team_entry(tl, id) is Some ==> spec_team_entry(tl, id)->Some_0.successor_id
            is None,
    decreases tl.len(),
{
    if tl.len() > 0 {
        lemma_team_entry_no_successor(tl.drop_last(), id);
    }
}

/// A team that no qualifying history row names in its first field keeps
/// `successor_id == None`: its entry is exactly what the team list built.
pub proof fn lemma_successor_clamp(tl: Seq<Seq<char>>, hl: Seq<Seq<char>>, id: Seq<char>)
    requires
        forall|i: int|
            0 <= i < hl.len() ==> !(hist_row_qualifies(#[trigger] hl[i]) && spec_split(
                hl[i],
                '\t',
            )[0] == id),
    ensures
        spec_dir_entry(tl, hl, id) == spec_team_entry(tl, id),
        spec_dir_entry(tl, hl, id) is Some ==> spec_dir_entry(tl, hl, id)->Some_0.successor_id
            is None,
    decreases hl.len(),
{
    if hl.len() > 0 {
        assert forall|i: int|
            0 <= i < hl.drop_last().len() implies !(hist_row_qualifies(
            #[trigger] hl.drop_last()[i],
        ) && spec_split(hl.drop_last()[i], '\t')[0] == id) by {
            assert(hl.drop_last()[i] == hl[i]);
        }
        lemma_successor_clamp(tl, hl.drop_last(), id);
        assert(hl[hl.len() - 1] == hl.last());
    }
    lemma_team_entry_no_successor(tl, id);
}

/// With unique ids, a lookup that succeeds yields the entry at the one
/// index that carries the id.
proof fn lemma_seq_find_unique(s: Seq<TeamView>, j: int, id: Seq<char>)
    requires
        0 <= j < s.len(),
        s[j].team_id == id,
        forall|k: int| 0 <= k < s.len() && k != j ==> s[k].team_id != id,
    ensures
        seq_find_team(s, id) == Some(s[j]),
    decreases s.len(),
{
    if j < s.len() - 1 {
        assert(s.last().team_id != id);
        lemma_seq_find_unique(s.drop_last(), j, id);
    }
}

} // verus!
