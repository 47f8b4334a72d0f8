use vstd::prelude::*;

use crate::date::{clamp_min_1, Date};
use crate::error::AppError;
use crate::num::{parse_i32, parse_u32, parses_as_i32, parses_as_u32, spec_i32_val, spec_u32_val};
use crate::text::{seq_views, spec_lines, spec_split, split_char, split_lines, str_eq};

verus! {

/// One normalized match record, attributed to the live team it was
/// ingested for.
#[derive(Debug)]
pub struct MatchHistory {
    pub team_id: String,
    pub date: Date,
    pub team_home: String,
    pub team_away: String,
    pub goals_home: u32,
    pub goals_away: u32,
    pub tournament: String,
    pub location: Option<String>,
    pub elo: u32,
}

/// The plain values of a match record.
pub struct MatchView {
    pub team_id: Seq<char>,
    pub date: Date,
    pub team_home: Seq<char>,
    pub team_away: Seq<char>,
    pub goals_home: u32,
    pub goals_away: u32,
    pub tournament: Seq<char>,
    pub location: Option<Seq<char>>,
    pub elo: u32,
}

impl View for MatchHistory {
    type V = MatchView;

    open spec fn view(&self) -> MatchView {
        MatchView {
            team_id: self.team_id@,
            date: self.date,
            team_home: self.team_home@,
            team_away: self.team_away@,
            goals_home: self.goals_home,
            goals_away: self.goals_away,
            tournament: self.tournament@,
            location: if self.location is Some {
                Some(self.location->Some_0@)
            } else {
                None
            },
            elo: self.elo,
        }
    }
}

/// The record views of a sequence of records.
pub open spec fn match_views(s: Seq<MatchHistory>) -> Seq<MatchView> {
    Seq::new(s.len(), |i: int| s[i]@)
}

/// Membership of `x` in an alias id list.
pub open spec fn in_aliases(aliases: Seq<Seq<char>>, x: Seq<char>) -> bool {
    exists|i: int| 0 <= i < aliases.len() && #[trigger] aliases[i] == x
}

/// The clamped date a row denotes, once its numeric fields parse.
pub open spec fn row_date(line: Seq<char>) -> Date {
    let f = spec_split(line, '\t');
    Date {
        year: spec_i32_val(f[0]) as i32,
        month: clamp_min_1(spec_u32_val(f[1]) as u32),
        day: clamp_min_1(spec_u32_val(f[2]) as u32),
    }
}

/// The row has at least twelve tab-separated fields, its numeric fields
/// parse, and the clamped date is a real calendar day.
pub open spec fn row_fields_ok(line: Seq<char>) -> bool {
    let f = spec_split(line, '\t');
    f.len() >= 12 && parses_as_i32(f[0]) && parses_as_u32(f[1]) && parses_as_u32(f[2])
        && parses_as_u32(f[5]) && parses_as_u32(f[6]) && row_date(line).wf()
}

pub open spec fn row_home_subject(aliases: Seq<Seq<char>>, line: Seq<char>) -> bool {
    in_aliases(aliases, spec_split(line, '\t')[3])
}

pub open spec fn row_away_subject(aliases: Seq<Seq<char>>, line: Seq<char>) -> bool {
    in_aliases(aliases, spec_split(line, '\t')[4])
}

/// The row belongs to one side of the subject team's alias identity.
pub open spec fn row_attributable(aliases: Seq<Seq<char>>, line: Seq<char>) -> bool {
    row_home_subject(aliases, line) || row_away_subject(aliases, line)
}

/// The rating column the row contributes: field 10 when the home code is
/// the subject's (the home check deliberately wins a degenerate double
/// match), field 11 when only the away code is.
pub open spec fn row_elo_field(aliases: Seq<Seq<char>>, line: Seq<char>) -> Seq<char> {
    if row_home_subject(aliases, line) {
        spec_split(line, '\t')[10]
    } else {
        spec_split(line, '\t')[11]
    }
}

/// Everything needed to turn the row into a record.
pub open spec fn row_ok(aliases: Seq<Seq<char>>, line: Seq<char>) -> bool {
    row_fields_ok(line) && row_attributable(aliases, line) && parses_as_u32(
        row_elo_field(aliases, line),
    )
}

/// The record a good row denotes.
pub open spec fn spec_row_record(
    team_id: Seq<char>,
    aliases: Seq<Seq<char>>,
    line: Seq<char>,
) -> MatchView {
    let f = spec_split(line, '\t');
    MatchView {
        team_id: team_id,
        date: row_date(line),
        team_home: f[3],
        team_away: f[4],
        goals_home: spec_u32_val(f[5]) as u32,
        goals_away: spec_u32_val(f[6]) as u32,
        tournament: f[7],
        location: if f[8].len() == 0 {
            None
        } else {
            Some(f[8])
        },
        elo: spec_u32_val(row_elo_field(aliases, line)) as u32,
    }
}

pub open spec fn all_rows_ok(aliases: Seq<Seq<char>>, lines: Seq<Seq<char>>) -> bool {
    forall|i: int| 0 <= i < lines.len() ==> row_ok(aliases, #[trigger] lines[i])
}

/// The records of a whole feed, one per line, in input order.
pub open spec fn spec_records(
    team_id: Seq<char>,
    aliases: Seq<Seq<char>>,
    lines: Seq<Seq<char>>,
) -> Seq<MatchView> {
    Seq::new(lines.len(), |i: int| spec_row_record(team_id, aliases, lines[i]))
}

/// The error text for a row that cannot be parsed.
pub open spec fn spec_invalid_line_msg(team_id: Seq<char>, line: Seq<char>) -> Seq<char> {
    "invalid match history line for team "@ + team_id + ": "@ + line
}

/// The error text for a row that matches neither side of the alias set.
pub open spec fn spec_unattributable_msg(
    team_id: Seq<char>,
    home: Seq<char>,
    away: Seq<char>,
) -> Seq<char> {
    "cannot identify home/away: team "@ + team_id + ", home "@ + home + ", away "@ + away
}

/// The error a bad row produces: a row that parses but matches neither
/// side gets the attribution error; any other failure gets the parse
/// error naming the raw line.
pub open spec fn spec_row_err_msg(
    team_id: Seq<char>,
    aliases: Seq<Seq<char>>,
    line: Seq<char>,
) -> Seq<char> {
    let f = spec_split(line, '\t');
    if row_fields_ok(line) && !row_attributable(aliases, line) {
        spec_unattributable_msg(team_id, f[3], f[4])
    } else {
        spec_invalid_line_msg(team_id, line)
    }
}

fn invalid_line_msg(team_id: &str, line: &str) -> (r: String)
    ensures
        r@ == spec_invalid_line_msg(team_id@, line@),
{
    let mut s = "invalid match history line for team ".to_owned();
    s.append(team_id);
    s.append(": ");
    s.append(line);
    s
}

fn unattributable_msg(team_id: &str, home: &str, away: &str) -> (r: String)
    ensures
        r@ == spec_unattributable_msg(team_id@, home@, away@),
{
    let mut s = "cannot identify home/away: team ".to_owned();
    s.append(team_id);
    s.append(", home ");
    s.append(home);
    s.append(", away ");
    s.append(away);
    s
}

fn contains_alias(aliases: &Vec<String>, x: &str) -> (r: bool)
    ensures
        r == in_aliases(seq_views(aliases@), x@),
{
    let mut k: usize = 0;
    while k < aliases.len()
        invariant
            k <= aliases.len(),
            forall|p: int| 0 <= p < k ==> seq_views(aliases@)[p] != x@,
        decreases aliases.len() - k,
    {
        if str_eq(aliases[k].as_str(), x) {
            proof {
                assert(seq_views(aliases@)[k as int] == x@);
            }
            return true;
        }
        proof {
            assert(seq_views(aliases@)[k as int] == aliases@[k as int]@);
        }
        k = k + 1;
    }
    false
}

/// Parses one raw feed row for the subject team `team_id` with alias set
/// `hist_ids`, yielding its record or the error that rejects it.
fn parse_row(team_id: &str, hist_ids: &Vec<String>, line: &String) -> (r: Result<
    MatchHistory,
    AppError,
>)
    ensures
        ({
            let aliases = seq_views(hist_ids@);
            &&& (r is Ok <==> row_ok(aliases, line@))
            &&& r is Ok ==> r->Ok_0@ == spec_row_record(team_id@, aliases, line@)
            &&& r is Err ==> r->Err_0@ == spec_row_err_msg(team_id@, aliases, line@)
        }),
{
    let ghost aliases = seq_views(hist_ids@);
    let fields = split_char(line.as_str(), '\t');
    proof {
        assert(seq_views(fields@) == spec_split(line@, '\t'));
    }
    if fields.len() < 12 {
        return Err(AppError::new(invalid_line_msg(team_id, line.as_str()).as_str()));
    }
    proof {
        assert forall|p: int| 0 <= p < 12 implies seq_views(fields@)[p] == fields@[p]@ by {}
    }
    let year = match parse_i32(fields[0].as_str()) {
        Some(v) => v,
        None => {
            return Err(AppError::new(invalid_line_msg(team_id, line.as_str()).as_str()));
        },
    };
    let month = match parse_u32(fields[1].as_str()) {
        Some(v) => v,
        None => {
            return Err(AppError::new(invalid_line_msg(team_id, line.as_str()).as_str()));
        },
    };
    let day = match parse_u32(fields[2].as_str()) {
        Some(v) => v,
        None => {
            return Err(AppError::new(invalid_line_msg(team_id, line.as_str()).as_str()));
        },
    };
    let goals_home = match parse_u32(fields[5].as_str()) {
        Some(v) => v,
        None => {
            return Err(AppError::new(invalid_line_msg(team_id, line.as_str()).as_str()));
        },
    };
    let goals_away = match parse_u32(fields[6].as_str()) {
        Some(v) => v,
        None => {
            return Err(AppError::new(invalid_line_msg(team_id, line.as_str()).as_str()));
        },
    };
    let date = match Date::from_raw_clamped(year, month, day) {
        Some(d) => d,
        None => {
            proof {
                assert(!row_date(line@).wf());
            }
            return Err(AppError::new(invalid_line_msg(team_id, line.as_str()).as_str()));
        },
    };
    proof {
        assert(date == row_date(line@));
        assert(row_fields_ok(line@));
    }
    let home_subject = contains_alias(hist_ids, fields[3].as_str());
    let elo: u32;
    if home_subject {
        elo = match parse_u32(fields[10].as_str()) {
            Some(v) => v,
            None => {
                return Err(AppError::new(invalid_line_msg(team_id, line.as_str()).as_str()));
            },
        };
    } else if contains_alias(hist_ids, fields[4].as_str()) {
        elo = match parse_u32(fields[11].as_str()) {
            Some(v) => v,
            None => {
                return Err(AppError::new(invalid_line_msg(team_id, line.as_str()).as_str()));
            },
        };
    } else {
        proof {
            assert(!row_attributable(aliases, line@));
        }
        return Err(
            AppError::new(
                unattributable_msg(
                    team_id,
                    fields[3].as_str(),
                    fields[4].as_str(),
                ).as_str(),
            ),
        );
    }
    let location = if fields[8].as_str().is_empty() {
        None
    } else {
        Some(fields[8].clone())
    };
    let mh = MatchHistory {
        team_id: team_id.to_owned(),
        date,
        team_home: fields[3].clone(),
        team_away: fields[4].clone(),
        goals_home,
        goals_away,
        tournament: fields[7].clone(),
        location,
        elo,
    };
    proof {
        assert(row_ok(aliases, line@));
        assert(mh@ == spec_row_record(team_id@, aliases, line@));
    }
    Ok(mh)
}

/// Normalizes one team's raw match-history feed: one record per line in
/// input order; the first bad line aborts the whole feed with its error.
pub fn get_match_history(team_id: &str, hist_ids: &Vec<String>, text: &str) -> (r: Result<
    Vec<MatchHistory>,
    AppError,
>)
    ensures
        ({
            let lines = spec_lines(text@);
            let aliases = seq_views(hist_ids@);
            &&& (r is Ok <==> all_rows_ok(aliases, lines))
            &&& r is Ok ==> match_views(r->Ok_0@) == spec_records(team_id@, aliases, lines)
            &&& r is Err ==> exists|i: int|
                0 <= i < lines.len() && !row_ok(aliases, #[trigger] lines[i]) && (forall|j: int|
                    0 <= j < i ==> row_ok(aliases, #[trigger] lines[j])) && r->Err_0@
                    == spec_row_err_msg(team_id@, aliases, lines[i])
        }),
{
    let ghost lv = spec_lines(text@);
    let ghost aliases = seq_views(hist_ids@);
    let lines = split_lines(text);
    let mut out: Vec<MatchHistory> = Vec::new();
    let mut i: usize = 0;
    while i < lines.len()
        invariant
            lv == spec_lines(text@),
            aliases == seq_views(hist_ids@),
            seq_views(lines@) == lv,
            i <= lines@.len(),
            forall|j: int| 0 <= j < i ==> row_ok(aliases, #[trigger] lv[j]),
            match_views(out@) == spec_records(team_id@, aliases, lv.take(i as int)),
        decreases lines.len() - i,
    {
        proof {
            assert(seq_views(lines@)[i as int] == lines@[i as int]@);
        }
        match parse_row(team_id, hist_ids, &lines[i]) {
            Ok(mh) => {
                let ghost mhv = mh@;
                let ghost old_out = out@;
                out.push(mh);
                proof {
                    assert(old_out.len() == i) by {
                        assert(match_views(old_out).len() == old_out.len());
                        assert(spec_records(team_id@, aliases, lv.take(i as int)).len()
                            == lv.take(i as int).len());
                    }
                    assert(out@ == old_out.push(out@.last()));
                    assert(out@.last()@ == mhv);
                    assert(mhv == spec_row_record(team_id@, aliases, lv[i as int]));
                    assert forall|k: int|
                        0 <= k < i + 1 implies match_views(out@)[k] == spec_records(
                        team_id@,
                        aliases,
                        lv.take(i + 1 as int),
                    )[k] by {
                        assert(lv.take(i + 1 as int)[k] == lv[k]);
                        assert(spec_records(team_id@, aliases, lv.take(i + 1 as int))[k]
                            == spec_row_record(team_id@, aliases, lv[k]));
                        if k < i {
                            assert(out@[k] == old_out[k]);
                            assert(match_views(old_out)[k] == old_out[k]@);
                            assert(lv.take(i as int)[k] == lv[k]);
                            assert(match_views(old_out)[k] == spec_records(
                                team_id@,
                                aliases,
                                lv.take(i as int),
                            )[k]);
                            assert(spec_records(team_id@, aliases, lv.take(i as int))[k]
                                == spec_row_record(team_id@, aliases, lv[k]));
                        } else {
                            assert(out@[k] == out@.last());
                            assert(match_views(out@)[k] == mhv);
                        }
                    }
                    assert(match_views(out@).len() == i + 1);
                    assert(match_views(out@) =~~= spec_records(
                        team_id@,
                        aliases,
                        lv.take(i + 1 as int),
                    ));
                }
            },
            Err(e) => {
                proof {
                    assert(!row_ok(aliases, lv[i as int]));
                    assert(e@ == spec_row_err_msg(team_id@, aliases, lv[i as int]));
                    let w = i as int;
                    assert(0 <= w < lv.len() && !row_ok(aliases, lv[w]) && (forall|j: int|
                        0 <= j < w ==> row_ok(aliases, #[trigger] lv[j])) && e@
                        == spec_row_err_msg(team_id@, aliases, lv[w]));
                    assert(exists|ii: int|
                        0 <= ii < lv.len() && !row_ok(aliases, #[trigger] lv[ii]) && (forall|
                            j: int,
                        |
                            0 <= j < ii ==> row_ok(aliases, #[trigger] lv[j])) && e@
                            == spec_row_err_msg(team_id@, aliases, lv[ii]));
                    assert(!all_rows_ok(aliases, lv));
                }
                return Err(e);
            },
        }
        i = i + 1;
    }
    proof {
        assert(lv.take(lines@.len() as int) =~= lv);
        assert(all_rows_ok(aliases, lv));
    }
    Ok(out)
}

} // verus!
