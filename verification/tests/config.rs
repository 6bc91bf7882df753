use photorg::config::{Granularity, LocationDepth, Options};
use photorg::plan::wanted_depth;

#[test]
fn presets_expand_to_templates() {
    let opts = Options {
        location: Some(LocationDepth::Region),
        ..Default::default()
    };
    assert_eq!(
        opts.template_string(Granularity::Month),
        "{year}/{month:02}-{month_name}/{country}/{region}"
    );
}

#[test]
fn explicit_template_overrides_presets() {
    let opts = Options {
        template: Some("{city}/{year}".into()),
        location: Some(LocationDepth::City),
        ..Default::default()
    };
    assert_eq!(opts.template_string(Granularity::Day), "{city}/{year}");
}

#[test]
fn every_preset_parses() {
    let opts = Options {
        location: Some(LocationDepth::City),
        ..Default::default()
    };
    for g in [
        Granularity::Year,
        Granularity::Month,
        Granularity::Week,
        Granularity::Day,
        Granularity::Adaptive,
    ] {
        assert!(opts.build_template(g).is_ok(), "{g:?} failed to parse");
    }
}

#[test]
fn a_place_is_only_wanted_where_the_path_names_one() {
    let plain = Options::default();
    assert!(matches!(wanted_depth(&plain), Ok(None)));
    let named = Options {
        template: Some("{year}/{city}".into()),
        ..Default::default()
    };
    assert!(matches!(wanted_depth(&named), Ok(Some(LocationDepth::City))));
    let overridden = Options {
        template: Some("{country}/{city}".into()),
        location: Some(LocationDepth::Country),
        ..Default::default()
    };
    assert!(matches!(
        wanted_depth(&overridden),
        Ok(Some(LocationDepth::City))
    ));
    let region = Options {
        location: Some(LocationDepth::Region),
        ..Default::default()
    };
    assert!(matches!(
        wanted_depth(&region),
        Ok(Some(LocationDepth::Region))
    ));
    let broken = Options {
        template: Some("{year".into()),
        ..Default::default()
    };
    assert!(wanted_depth(&broken).is_err());
}
