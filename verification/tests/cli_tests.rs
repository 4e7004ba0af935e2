use dinero::cli::{clip, date_parser, init_paths, parse_config_file, read_date_text, ConfigError, DateText};
use dinero::date::Date;

fn ymd(y: i32, m: u32, d: u32) -> Date {
    Date::from_ymd_opt(y, m, d).unwrap()
}

/// What `two_timer` reads from a phrase, as year, month and day.
fn phrase_date(s: &str) -> Option<(i32, u32, u32)> {
    match read_date_text(s) {
        DateText::Other => match two_timer::parse(s, None) {
            Ok((t, _, _)) => {
                let d = t.date();
                Some((chrono::Datelike::year(&d), chrono::Datelike::month(&d), chrono::Datelike::day(&d)))
            }
            Err(_) => None,
        },
        _ => None,
    }
}

fn read_date(s: &str) -> Result<Date, dinero::error::TimeParseError> {
    date_parser(s, phrase_date(s))
}

fn strings(v: &[&str]) -> Vec<String> {
    v.iter().map(|x| x.to_string()).collect()
}

#[test]
fn app_command_line_dates() {
    assert_eq!(read_date("2010-5-3").unwrap(), ymd(2010, 5, 3));
    assert_eq!(read_date("2010").unwrap(), ymd(2010, 1, 1));
    assert_eq!(read_date("2010-09").unwrap(), ymd(2010, 9, 1));
    assert_eq!(read_date("2020-09-05").unwrap(), ymd(2020, 9, 5));
    assert_eq!(read_date("2017-12-05").unwrap(), ymd(2017, 12, 5));
    assert_eq!(read_date("2020-01-12").unwrap(), ymd(2020, 1, 12));
    assert_eq!(read_date("2010-09").unwrap(), ymd(2010, 9, 1));
    assert!(read_date("this is not a date").is_err());
}

#[test]
fn main_command_line_dates() {
    assert_eq!(read_date("2010-5-3").unwrap(), ymd(2010, 5, 3));
    assert_eq!(read_date("2010").unwrap(), ymd(2010, 1, 1));
    assert_eq!(read_date("2010-09").unwrap(), ymd(2010, 9, 1));
    assert!(read_date("this is not a date").is_err());
}

#[test]
fn written_dates_are_read_from_the_end() {
    assert_eq!(read_date_text("2010-5-3"), DateText::Day(2010, 5, 3));
    assert_eq!(read_date_text("since 2019/12/31"), DateText::Day(2019, 12, 31));
    assert_eq!(read_date_text("2010/09"), DateText::Month(2010, 9));
    assert_eq!(read_date_text("12010-09"), DateText::Month(2010, 9));
    assert_eq!(read_date_text("2010-123"), DateText::Other);
    assert_eq!(read_date_text("2010"), DateText::Other);
    assert_eq!(read_date_text(""), DateText::Other);
}

#[test]
fn a_day_that_does_not_exist_is_refused() {
    assert!(read_date("2020-13-12").is_err());
    assert!(read_date("2021-02-29").is_err());
    assert_eq!(read_date("2020-02-29").unwrap(), ymd(2020, 2, 29));
    assert!(read_date("2020-00").is_err());
}

#[test]
fn long_texts_are_clipped() {
    assert_eq!(clip("Expenses:Food", 40), "Expenses:Food");
    assert_eq!(clip("Expenses:Food", 10), "Expense..");
    assert_eq!(clip("abc", 6), "abc..");
    assert_eq!(clip("abc", 7), "abc");
    assert_eq!(clip("", 3), "..");
    assert_eq!(clip("añb", 5), "añ..");
}

#[test]
fn config_file_adds_missing_options() {
    let lines = strings(&[
        "; a comment",
        "# another one",
        "",
        "   ",
        "--file   my.ledger",
        "--real",
        "--begin 2020   01  ",
        "! and % are comments too",
        "%",
    ]);
    let args = strings(&["dinero", "bal", "-b", "2019"]);
    let res = parse_config_file(&lines, &args).unwrap();
    assert_eq!(res, strings(&["dinero", "bal", "-b", "2019", "--file", "my.ledger", "--real"]));
}

#[test]
fn config_file_options_given_once() {
    let lines = strings(&["--real", "--real", "--depth 2", "--depth 3"]);
    let args = strings(&["dinero", "bal"]);
    let res = parse_config_file(&lines, &args).unwrap();
    assert_eq!(res, strings(&["dinero", "bal", "--real", "--depth", "2"]));
    let args = strings(&["dinero", "bal", "-d", "1"]);
    let res = parse_config_file(&lines, &args).unwrap();
    assert_eq!(res, strings(&["dinero", "bal", "-d", "1", "--real"]));
}

#[test]
fn config_file_bad_lines() {
    let args = strings(&["dinero", "bal"]);
    let lines = strings(&[
        "--real",
        "This line should be a comment but isn't, it is bad on purpose.",
        "- not reached",
    ]);
    assert_eq!(
        parse_config_file(&lines, &args),
        Err(ConfigError::BadLine("This line should be a comment but isn't, it is bad on purpose.".to_string()))
    );
    let lines = strings(&["- This does not parse either. And it shouldn't."]);
    assert_eq!(
        parse_config_file(&lines, &args),
        Err(ConfigError::ShortOption("- This does not parse either. And it shouldn't.".to_string()))
    );
    let lines = strings(&["  --real"]);
    assert_eq!(parse_config_file(&lines, &args), Err(ConfigError::ShortOption("  --real".to_string())));
}

#[test]
fn configuration_paths() {
    let args = strings(&["dinero", "bal", "--init-file", "a.rc", "-f", "x", "--init-file", "b.rc"]);
    let (files, paths) = init_paths(&args, "/home/me/.ledgerrc");
    assert_eq!(files, strings(&["a.rc", "b.rc"]));
    assert_eq!(paths, strings(&["a.rc", "b.rc", "/home/me/.ledgerrc", ".ledgerrc"]));

    let args = strings(&["dinero", "bal", "--init-file", "a.rc", "--args-only", "--init-file", "b.rc"]);
    let (files, paths) = init_paths(&args, "/home/me/.ledgerrc");
    assert_eq!(files, strings(&["a.rc"]));
    assert!(paths.is_empty());

    let args = strings(&["dinero", "bal"]);
    let (files, paths) = init_paths(&args, "~/.ledgerrc");
    assert!(files.is_empty());
    assert_eq!(paths, strings(&["~/.ledgerrc", ".ledgerrc"]));
}
