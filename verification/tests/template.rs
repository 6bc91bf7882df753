use photorg::calendar::Date;
use photorg::error::TemplateError;
use photorg::template::{Class, Location, RenderVars, Template, Var};

fn date(y: i32, m: u32, d: u32) -> Option<Date> {
    Date::new(y, m, d)
}

fn render(t: &str, vars: &RenderVars<'_>) -> String {
    Template::parse(t).unwrap().render(vars)
}

fn refusal(t: &str) -> TemplateError {
    match Template::parse(t) {
        Ok(_) => panic!("{t} was accepted"),
        Err(e) => e,
    }
}

#[test]
fn renders_month_preset() {
    let vars = RenderVars {
        date: date(2026, 8, 19),
        ..Default::default()
    };
    assert_eq!(
        render("{year}/{month:02}-{month_name}", &vars),
        "2026/08-August"
    );
}

#[test]
fn iso_week_uses_iso_year() {
    // 2024-12-30 is a Monday and belongs to ISO week 1 of 2025.
    let vars = RenderVars {
        date: date(2024, 12, 30),
        ..Default::default()
    };
    assert_eq!(
        render("{iso_year}/{iso_year}-W{iso_week:02}", &vars),
        "2025/2025-W01"
    );
    // The calendar year must not leak into an ISO path.
    assert_eq!(render("{year}", &vars), "2024");

    // A year that starts on a Thursday has 53 ISO weeks, and its last day
    // stays in its own ISO year.
    let vars = RenderVars {
        date: date(2026, 12, 31),
        ..Default::default()
    };
    assert_eq!(render("{iso_year}-W{iso_week:02}", &vars), "2026-W53");
}

#[test]
fn missing_date_collapses_to_one_component() {
    let vars = RenderVars::default();
    assert_eq!(render("{year}/{month:02}/{day:02}", &vars), "unknown-date");
}

#[test]
fn missing_location_segments_are_dropped() {
    let vars = RenderVars {
        date: date(2026, 8, 19),
        ..Default::default()
    };
    assert_eq!(render("{year}/{country}/{region}", &vars), "2026");
}

#[test]
fn location_components_are_sanitized() {
    let loc = Location {
        country: Some("Croatia".into()),
        region: Some("A/B: north".into()),
        city: None,
    };
    let vars = RenderVars {
        date: date(2026, 8, 19),
        location: Some(&loc),
        ..Default::default()
    };
    assert_eq!(
        render("{year}/{country}/{region}", &vars),
        "2026/Croatia/A-B- north"
    );
}

#[test]
fn rejects_bad_templates() {
    assert_eq!(refusal("{year"), TemplateError::UnclosedBrace(0));
    assert!(matches!(
        refusal("{nope}"),
        TemplateError::UnknownVariable(_)
    ));
    assert_eq!(refusal("/abs/{year}"), TemplateError::Absolute);
    assert_eq!(refusal("C:/{year}"), TemplateError::Absolute);
    assert_eq!(refusal("../{year}"), TemplateError::ParentEscape);
    assert_eq!(refusal(""), TemplateError::Empty);
    assert!(matches!(
        refusal("{country:02}"),
        TemplateError::BadPadding(_)
    ));
}

#[test]
fn literal_only_template_is_allowed() {
    assert_eq!(render("photos/all", &RenderVars::default()), "photos/all");
}

#[test]
fn a_stray_brace_is_told_with_its_place() {
    assert_eq!(refusal("{year}/a}b"), TemplateError::StrayBrace(8));
    assert_eq!(
        refusal("{year}/a}b").message(),
        "unexpected '}' at byte 8"
    );
    assert_eq!(
        refusal("{nope}").message(),
        "unknown variable `nope`"
    );
}

#[test]
fn unresolved_dates_collapse_across_other_segments() {
    let vars = RenderVars::default();
    assert_eq!(
        render("{year}/photos/{month:02}", &vars),
        "unknown-date/photos"
    );
}

#[test]
fn camera_names_are_rendered() {
    let vars = RenderVars {
        date: date(2026, 8, 19),
        camera_make: Some("Canon"),
        camera_model: Some("EOS R5"),
        ..Default::default()
    };
    assert_eq!(
        render("{camera_make}/{camera_model}/{year}", &vars),
        "Canon/EOS R5/2026"
    );
}

#[test]
fn a_template_tells_its_source_and_whether_it_uses_a_place() {
    let t = Template::parse("{year}/{country}").unwrap();
    assert_eq!(t.source(), "{year}/{country}");
    assert!(t.uses_location());
    assert!(!Template::parse("{year}").unwrap().uses_location());
    assert!(Var::City.class() == Class::Location);
    assert!(Var::Year.class() == Class::Date);
}

#[test]
fn every_rendered_component_splits_back() {
    let vars = RenderVars {
        date: date(2026, 1, 5),
        ..Default::default()
    };
    let out = render("{year}/{month}-{day:03}/x", &vars);
    assert_eq!(out.split('/').collect::<Vec<_>>(), vec!["2026", "1-005", "x"]);
}
