use fast_nix_gc::logging::{filter_of_setting, Level, LevelFilter, StderrLogger};

#[test]
fn respects_level_filter() {
    let logger = StderrLogger(LevelFilter::Info);
    assert!(logger.enabled(Level::Info));
    assert!(!logger.enabled(Level::Debug));
}

#[test]
fn levels_are_ordered() {
    let all = [
        Level::Error,
        Level::Warn,
        Level::Info,
        Level::Debug,
        Level::Trace,
    ];
    let filters = [
        LevelFilter::Off,
        LevelFilter::Error,
        LevelFilter::Warn,
        LevelFilter::Info,
        LevelFilter::Debug,
        LevelFilter::Trace,
    ];
    for (n, filter) in filters.iter().enumerate() {
        let shown = all
            .iter()
            .filter(|l| StderrLogger(*filter).enabled(**l))
            .count();
        assert_eq!(shown, n);
    }
}

#[test]
fn settings_name_filters() {
    assert!(filter_of_setting(Some("debug")) == LevelFilter::Debug);
    assert!(filter_of_setting(Some("WARN")) == LevelFilter::Warn);
    assert!(filter_of_setting(Some("Trace")) == LevelFilter::Trace);
    assert!(filter_of_setting(Some("off")) == LevelFilter::Off);
    assert!(filter_of_setting(Some("error")) == LevelFilter::Error);
    assert!(filter_of_setting(Some("info")) == LevelFilter::Info);
    assert!(filter_of_setting(Some("loud")) == LevelFilter::Info);
    assert!(filter_of_setting(Some("")) == LevelFilter::Info);
    assert!(filter_of_setting(None) == LevelFilter::Info);
}

#[test]
fn lines_carry_the_level() {
    let logger = StderrLogger(LevelFilter::Warn);
    assert_eq!(logger.line(Level::Warn, "careful").unwrap(), "[WARN ] careful");
    assert_eq!(logger.line(Level::Error, "bad").unwrap(), "[ERROR] bad");
    assert_eq!(logger.line(Level::Info, "fine"), None);
}
