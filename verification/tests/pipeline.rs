use elo_ingest::date::Date;
use elo_ingest::error::AppError;
use elo_ingest::matches::get_match_history;
use elo_ingest::num::{parse_i32, parse_u32};
use elo_ingest::plan::{all_ascii, format_page_name, plan_fetches};
use elo_ingest::team::{get_hist_teams, get_teams, is_team_id};
use elo_ingest::text::{split_char, split_lines};

// A twelve-field row: year, month, day, home, away, goals, goals,
// tournament, location, unused, home rating, away rating.
fn row(fields: &[&str]) -> String {
    fields.join("\t")
}

#[test]
fn team_id_accepts_two_uppercase_letters() {
    assert!(is_team_id("AA"));
    assert!(is_team_id("ZQ"));
}

#[test]
fn team_id_rejects_wrong_lengths() {
    assert!(!is_team_id(""));
    assert!(!is_team_id("A"));
    assert!(!is_team_id("AAA"));
}

#[test]
fn team_id_rejects_lowercase_digits_mixed() {
    assert!(!is_team_id("aa"));
    assert!(!is_team_id("A1"));
    assert!(!is_team_id("aA"));
    assert!(!is_team_id("12"));
}

#[test]
fn directory_build_collects_qualifying_rows() {
    let teams = "AA\tAlpha\nBB\tBeta\nnot-a-team\nC\tGamma\n";
    let hist = "";
    let dir = get_teams(teams, hist).unwrap();
    assert_eq!(dir.teams.len(), 2);
    assert_eq!(dir.teams[0].team_id, "AA");
    assert_eq!(dir.teams[0].team_name, "Alpha");
    assert_eq!(dir.teams[1].team_id, "BB");
    assert_eq!(dir.teams[1].team_name, "Beta");
}

#[test]
fn directory_build_last_row_wins() {
    let teams = "AA\tOld Name\nAA\tNew Name\n";
    let dir = get_teams(teams, "").unwrap();
    assert_eq!(dir.teams.len(), 1);
    assert_eq!(dir.teams[0].team_name, "New Name");
}

#[test]
fn directory_build_idempotent() {
    let teams = "AA\tAlpha\nBB\tBeta\nCC\tGamma\n";
    let hist = "BB\tAA\nCC\tAA\n";
    let d1 = get_teams(teams, hist).unwrap();
    let d2 = get_teams(teams, hist).unwrap();
    assert_eq!(d1.teams.len(), d2.teams.len());
    for i in 0..d1.teams.len() {
        assert_eq!(d1.teams[i].team_id, d2.teams[i].team_id);
        assert_eq!(d1.teams[i].team_name, d2.teams[i].team_name);
        assert_eq!(d1.teams[i].successor_id, d2.teams[i].successor_id);
    }
}

#[test]
fn successor_clamp_team_only_in_team_list() {
    let teams = "AA\tAlpha\nBB\tBeta\n";
    let hist = "BB\tAA\n";
    let dir = get_teams(teams, hist).unwrap();
    assert_eq!(dir.teams[0].team_id, "AA");
    assert_eq!(dir.teams[0].successor_id, None);
    assert_eq!(dir.teams[1].team_id, "BB");
    assert_eq!(dir.teams[1].successor_id, Some("AA".to_string()));
}

#[test]
fn history_row_with_unknown_team_is_fatal() {
    let teams = "AA\tAlpha\n";
    let hist = "BB\tAA\n";
    let err = get_teams(teams, hist).unwrap_err();
    assert_eq!(err.message(), "unknown team id in team history: BB");
}

#[test]
fn alias_resolution_collects_predecessors_and_self() {
    let teams = "AA\tAlpha\nBB\tBeta\nCC\tGamma\nDD\tDelta\n";
    let hist = "BB\tAA\nCC\tAA\n";
    let dir = get_teams(teams, hist).unwrap();
    let mut aliases = get_hist_teams("AA", &dir);
    aliases.sort();
    assert_eq!(aliases, vec!["AA".to_string(), "BB".to_string(), "CC".to_string()]);
}

#[test]
fn date_clamps_zero_month_and_day() {
    let ids = vec!["AA".to_string()];
    let line = row(&["1950", "0", "0", "AA", "ZZ", "1", "0", "Cup", "", "x", "1500", "1600"]);
    let mhs = get_match_history("AA", &ids, &line).unwrap();
    assert_eq!(mhs.len(), 1);
    assert_eq!(mhs[0].date, Date { year: 1950, month: 1, day: 1 });
    assert_eq!(mhs[0].date.iso_string(), "1950-01-01");
}

#[test]
fn date_clamps_zero_month_keeps_day() {
    let ids = vec!["AA".to_string()];
    let line = row(&["1950", "0", "15", "AA", "ZZ", "1", "0", "Cup", "", "x", "1500", "1600"]);
    let mhs = get_match_history("AA", &ids, &line).unwrap();
    assert_eq!(mhs[0].date, Date { year: 1950, month: 1, day: 15 });
    assert_eq!(mhs[0].date.iso_string(), "1950-01-15");
}

#[test]
fn date_leap_year_rules() {
    let ids = vec!["AA".to_string()];
    let leap = row(&["2000", "2", "29", "AA", "ZZ", "1", "0", "Cup", "", "x", "1500", "1600"]);
    assert!(get_match_history("AA", &ids, &leap).is_ok());
    let not_leap = row(&["1900", "2", "29", "AA", "ZZ", "1", "0", "Cup", "", "x", "1500", "1600"]);
    assert!(get_match_history("AA", &ids, &not_leap).is_err());
    let bad_month = row(&["1950", "13", "1", "AA", "ZZ", "1", "0", "Cup", "", "x", "1500", "1600"]);
    assert!(get_match_history("AA", &ids, &bad_month).is_err());
}

#[test]
fn elo_taken_from_home_column_when_home_is_subject() {
    let ids = vec!["AA".to_string()];
    let line = row(&["1980", "5", "2", "AA", "ZZ", "2", "1", "Cup", "Rio", "x", "1500", "1600"]);
    let mhs = get_match_history("AA", &ids, &line).unwrap();
    assert_eq!(mhs[0].elo, 1500);
    assert_eq!(mhs[0].team_home, "AA");
    assert_eq!(mhs[0].team_away, "ZZ");
    assert_eq!(mhs[0].goals_home, 2);
    assert_eq!(mhs[0].goals_away, 1);
    assert_eq!(mhs[0].tournament, "Cup");
    assert_eq!(mhs[0].location, Some("Rio".to_string()));
}

#[test]
fn elo_taken_from_away_column_when_away_is_subject() {
    let ids = vec!["AA".to_string()];
    let line = row(&["1980", "5", "2", "ZZ", "AA", "2", "1", "Cup", "", "x", "1500", "1600"]);
    let mhs = get_match_history("AA", &ids, &line).unwrap();
    assert_eq!(mhs[0].elo, 1600);
    assert_eq!(mhs[0].location, None);
}

#[test]
fn unattributable_row_names_all_three_codes() {
    let ids = vec!["AA".to_string()];
    let line = row(&["1980", "5", "2", "XX", "YY", "2", "1", "Cup", "", "x", "1500", "1600"]);
    let err = get_match_history("AA", &ids, &line).unwrap_err();
    assert_eq!(err.message(), "cannot identify home/away: team AA, home XX, away YY");
}

#[test]
fn short_row_names_team_and_raw_line() {
    let ids = vec!["AA".to_string()];
    let line = row(&["1980", "5", "2", "XX", "YY", "2", "1", "Cup"]);
    let err = get_match_history("AA", &ids, &line).unwrap_err();
    assert_eq!(
        err.message(),
        format!("invalid match history line for team AA: {}", line)
    );
}

#[test]
fn unparsable_numeric_field_is_fatal() {
    let ids = vec!["AA".to_string()];
    let line = row(&["198x", "5", "2", "AA", "ZZ", "2", "1", "Cup", "", "x", "1500", "1600"]);
    let err = get_match_history("AA", &ids, &line).unwrap_err();
    assert_eq!(
        err.message(),
        format!("invalid match history line for team AA: {}", line)
    );
    let bad_elo = row(&["1980", "5", "2", "AA", "ZZ", "2", "1", "Cup", "", "x", "15zz", "1600"]);
    assert!(get_match_history("AA", &ids, &bad_elo).is_err());
}

#[test]
fn first_bad_line_aborts_whole_feed() {
    let ids = vec!["AA".to_string()];
    let good = row(&["1980", "5", "2", "AA", "ZZ", "2", "1", "Cup", "", "x", "1500", "1600"]);
    let bad = row(&["1981", "bad", "2", "AA", "ZZ", "2", "1", "Cup", "", "x", "1500", "1600"]);
    let text = format!("{}\n{}\n", good, bad);
    assert!(get_match_history("AA", &ids, &text).is_err());
}

#[test]
fn records_preserve_input_order() {
    let ids = vec!["AA".to_string()];
    let l1 = row(&["1980", "5", "2", "AA", "ZZ", "2", "1", "Cup", "", "x", "1500", "1600"]);
    let l2 = row(&["1981", "6", "3", "YY", "AA", "0", "0", "League", "", "x", "1510", "1610"]);
    let text = format!("{}\n{}", l1, l2);
    let mhs = get_match_history("AA", &ids, &text).unwrap();
    assert_eq!(mhs.len(), 2);
    assert_eq!(mhs[0].date.year, 1980);
    assert_eq!(mhs[1].date.year, 1981);
    assert_eq!(mhs[1].elo, 1610);
}

#[test]
fn page_name_transliterates_accents_and_spaces() {
    assert_eq!(format_page_name("São Paulo"), "Sao_Paulo");
    assert_eq!(format_page_name("Köln City"), "Koln_City");
    assert!(all_ascii(&format_page_name("São Paulo")));
    assert!(all_ascii(&format_page_name("Köln City")));
    assert_eq!(format_page_name("Ñandú àáâãäåçèéêëìíîïòóôõöùúûü"), "Ñandu_aaaaaaceeeeiiiiooooouuuu");
}

#[test]
fn end_to_end_plan_and_normalize() {
    let teams = "AA\tAlpha\nBB\tBeta\n";
    let hist = "BB\tAA\n";
    let dir = get_teams(teams, hist).unwrap();
    // Both teams are in the directory and would be persisted.
    assert_eq!(dir.teams.len(), 2);
    let plans = plan_fetches(&dir).unwrap();
    // Only the live team AA is fetched, under its page name, with BB as alias.
    assert_eq!(plans.len(), 1);
    assert_eq!(plans[0].team_id, "AA");
    assert_eq!(plans[0].page_name, "Alpha");
    let mut aliases = plans[0].alias_ids.clone();
    aliases.sort();
    assert_eq!(aliases, vec!["AA".to_string(), "BB".to_string()]);
    // A row where the alias BB is the home code is attributed to AA with
    // the home rating column.
    let line = row(&["1975", "3", "8", "BB", "ZZ", "1", "1", "Cup", "", "x", "1700", "1800"]);
    let mhs = get_match_history("AA", &plans[0].alias_ids, &line).unwrap();
    assert_eq!(mhs.len(), 1);
    assert_eq!(mhs[0].team_id, "AA");
    assert_eq!(mhs[0].team_home, "BB");
    assert_eq!(mhs[0].elo, 1700);
}

#[test]
fn parse_u32_matches_std_acceptance() {
    assert_eq!(parse_u32("0"), Some(0));
    assert_eq!(parse_u32("+42"), Some(42));
    assert_eq!(parse_u32("4294967295"), Some(u32::MAX));
    assert_eq!(parse_u32("4294967296"), None);
    assert_eq!(parse_u32(""), None);
    assert_eq!(parse_u32("+"), None);
    assert_eq!(parse_u32("-1"), None);
    assert_eq!(parse_u32("1 2"), None);
}

#[test]
fn parse_i32_matches_std_acceptance() {
    assert_eq!(parse_i32("-17"), Some(-17));
    assert_eq!(parse_i32("+17"), Some(17));
    assert_eq!(parse_i32("2147483647"), Some(i32::MAX));
    assert_eq!(parse_i32("-2147483648"), Some(i32::MIN));
    assert_eq!(parse_i32("2147483648"), None);
    assert_eq!(parse_i32("-2147483649"), None);
    assert_eq!(parse_i32("-"), None);
    assert_eq!(parse_i32("1.5"), None);
}

#[test]
fn iso_string_pads_all_fields() {
    assert_eq!(Date { year: 2000, month: 2, day: 29 }.iso_string(), "2000-02-29");
    assert_eq!(Date { year: 5, month: 12, day: 3 }.iso_string(), "0005-12-03");
    assert_eq!(Date { year: -44, month: 3, day: 15 }.iso_string(), "-0044-03-15");
    assert_eq!(Date { year: 12345, month: 10, day: 31 }.iso_string(), "12345-10-31");
}

#[test]
fn split_helpers_match_std() {
    let parts = split_char("a\tb\t\tc", '\t');
    assert_eq!(parts, vec!["a", "b", "", "c"]);
    assert_eq!(split_char("", '\t'), vec![""]);
    let lines = split_lines("one\r\ntwo\nthree");
    assert_eq!(lines, vec!["one", "two", "three"]);
    assert_eq!(split_lines("x\n"), vec!["x"]);
    assert_eq!(split_lines(""), Vec::<String>::new());
}

#[test]
fn app_error_keeps_its_text() {
    let e = AppError::new("boom");
    assert_eq!(e.message(), "boom");
}
