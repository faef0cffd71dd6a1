use route_optimizer::progress::ProgressHolder;
use route_optimizer::request::{
    length_from_cell, make_url, parse_text_into_length, try_parse_text_into_length, LengthError,
};
use route_optimizer::route::RouteOption;
use route_optimizer::system::pair::SystemPair;
use route_optimizer::system::system::System;
use route_optimizer::trace::string;

#[test]
fn progress_starts_empty() {
    let p = ProgressHolder::new();
    assert!(!p.is_err());
    assert_eq!(p.get_err(), "");
    assert_eq!(p.state, "");
}

#[test]
fn progress_reports_total_and_steps() {
    let mut p = ProgressHolder::new();
    p.set_total(120);
    assert_eq!(p.state, string::ok("Total job to process: 120"));
    p.feedback(30, " 25.00");
    assert_eq!(p.state, string::info("In Progress ( 30 / 120 ) [  25.00 % ]"));
    assert!(!p.is_err());
}

#[test]
fn progress_records_errors() {
    let mut p = ProgressHolder::new();
    p.feedback_on_err("Distance not set");
    assert!(p.is_err());
    assert_eq!(p.get_err(), &string::error("Distance not set"));
}

#[test]
fn url_names_option_and_pair() {
    let pair = SystemPair::from_ref(&System::new("jita"), &System::new("amarr"));
    assert_eq!(
        make_url(&RouteOption::Highsec, &pair),
        "https://evemaps.dotlan.net/route/2:JITA:AMARR"
    );
    assert_eq!(
        make_url(&RouteOption::LowNull, &pair),
        "https://evemaps.dotlan.net/route/3:JITA:AMARR"
    );
}

#[test]
fn cell_length_counts_jumps() {
    assert_eq!(length_from_cell("13"), Ok(12));
    assert_eq!(length_from_cell(" 1.024 \n"), Ok(1023));
    assert_eq!(length_from_cell("1"), Ok(0));
    assert_eq!(length_from_cell("0"), Err(LengthError::ZeroRouteLength));
    assert_eq!(length_from_cell("n/a"), Err(LengthError::InvalidRouteLength));
    assert_eq!(length_from_cell(""), Err(LengthError::InvalidRouteLength));
}

const ANSWER: &str = r#"<html><body>
<div id="navtools">
  <table class="tablelist table-tooltip">
    <tr><th>Jumps</th><th>System</th></tr>
    <tr><td>1</td><td>Jita</td></tr>
    <tr><td> 7 </td><td>Amarr</td></tr>
  </table>
</div>
</body></html>"#;

#[test]
fn answer_length_is_last_row_first_cell() {
    assert_eq!(try_parse_text_into_length(ANSWER), Ok(6));
    assert_eq!(parse_text_into_length(ANSWER), 6);
}

#[test]
fn answer_without_route_table_is_refused() {
    assert_eq!(
        try_parse_text_into_length("<html><body><p>no route</p></body></html>"),
        Err(LengthError::UnexpectedResponseFormat)
    );
    let no_table = r#"<div id="navtools"><table class="other"><tr><td>3</td></tr></table></div>"#;
    assert_eq!(try_parse_text_into_length(no_table), Err(LengthError::SystemNameInvalid));
    let no_cell = r#"<div id="navtools"><table class="tablelist table-tooltip"><tr><th>3</th></tr></table></div>"#;
    assert_eq!(try_parse_text_into_length(no_cell), Err(LengthError::SystemNameInvalid));
}

#[test]
fn length_errors_have_messages() {
    assert_eq!(
        LengthError::UnexpectedResponseFormat.message(),
        string::error("Unexpected response format")
    );
    assert_eq!(LengthError::SystemNameInvalid.message(), string::error("System Name Invalid"));
    assert_eq!(
        LengthError::InvalidRouteLength.message(),
        string::error("Failed to parse route length")
    );
    assert_eq!(LengthError::ZeroRouteLength.message(), string::error("Route length is zero"));
}

#[test]
fn answer_with_zero_length_is_refused() {
    let zero = r#"<div id="navtools"><table class="tablelist table-tooltip"><tr><td>0</td></tr></table></div>"#;
    assert_eq!(try_parse_text_into_length(zero), Err(LengthError::ZeroRouteLength));
    let text = r#"<div id="navtools"><table class="tablelist table-tooltip"><tr><td>x</td></tr></table></div>"#;
    assert_eq!(try_parse_text_into_length(text), Err(LengthError::InvalidRouteLength));
}

#[test]
fn url_gives_back_option_and_names() {
    let pair = SystemPair::from_ref(&System::new("jita"), &System::new("old man star"));
    let url = make_url(&RouteOption::LowNull, &pair);
    let rest = url.strip_prefix("https://evemaps.dotlan.net/route/").unwrap();
    let parts: Vec<&str> = rest.split(':').collect();
    assert_eq!(parts, vec!["3", "JITA", "OLD MAN STAR"]);
}

#[test]
fn error_flag_is_sticky() {
    let mut p = ProgressHolder::new();
    p.set_total(4);
    p.feedback(1, " 25.00");
    assert!(!p.is_err());
    p.feedback_on_err("lost");
    p.set_total(8);
    p.feedback(2, " 25.00");
    assert!(p.is_err());
}
