use waypoint::cli::{parse_active, parse_priority, Cli, CommandContext, Commands};
use waypoint::config::Config;
use waypoint::errors::WpError;
use waypoint::waypoint::Waypoint;

fn wp(location: &str, tags: &[&str], priority: u32, active: bool) -> Waypoint {
    Waypoint {
        location: location.to_string(),
        tags: tags.iter().map(|t| t.to_string()).collect(),
        priority,
        active,
    }
}

fn ctx() -> CommandContext {
    CommandContext {
        config: None,
        env_path: String::new(),
        config_file_exists: false,
        location: None,
        location_exists: false,
        tags_answer: None,
        priority_answer: None,
        active_answer: None,
        selection: None,
        submission: None,
    }
}

fn two_entry_config() -> Config {
    Config {
        path: String::new(),
        waypoints: vec![wp("/usr/bin", &["system"], 0, true), wp("/bin", &["system"], 0, true)],
        metadata: vec![],
    }
}

#[test]
fn freeze_scenario_seeds_two_waypoints() {
    let cli = Cli { command: Commands::Freeze { overwrite: false } };
    let mut c = ctx();
    c.env_path = "/usr/bin:/bin".to_string();
    let out = cli.execute(c).unwrap();
    let cfg = out.config.unwrap();
    assert_eq!(cfg.waypoints.len(), 2);
    assert_eq!(cfg.waypoints[0], wp("/usr/bin", &["system"], 0, true));
    assert_eq!(cfg.waypoints[1], wp("/bin", &["system"], 0, true));
    assert_eq!(cfg.path, "/usr/bin:/bin");
    let text = out.file_text.unwrap();
    let back = Config::load(&text).unwrap();
    assert_eq!(back.path, "/usr/bin:/bin");
}

#[test]
fn freeze_refuses_existing_file() {
    let cli = Cli { command: Commands::Freeze { overwrite: false } };
    let mut c = ctx();
    c.env_path = "/bin".to_string();
    c.config_file_exists = true;
    assert!(matches!(cli.execute(c), Err(WpError::AlreadyExists)));
}

#[test]
fn export_prints_path() {
    let cli = Cli { command: Commands::Export };
    let mut c = ctx();
    c.config = Some(Config {
        path: "/a:/b".to_string(),
        waypoints: vec![],
        metadata: vec![],
    });
    let out = cli.execute(c).unwrap();
    assert_eq!(out.output, "/a:/b");
    assert!(out.file_text.is_none());
}

#[test]
fn commands_that_need_a_config_fail_without_one() {
    assert!(matches!(
        Cli { command: Commands::Export }.execute(ctx()),
        Err(WpError::NotFound)
    ));
    assert!(matches!(
        Cli { command: Commands::List { tag: None } }.execute(ctx()),
        Err(WpError::NotFound)
    ));
    assert!(matches!(
        Cli { command: Commands::Remove }.execute(ctx()),
        Err(WpError::NotFound)
    ));
}

#[test]
fn add_with_missing_path_fails_and_persists_nothing() {
    let cli = Cli { command: Commands::Add { path: Some("/no/such/dir".to_string()) } };
    let mut c = ctx();
    c.config = Some(two_entry_config());
    c.location = Some("/no/such/dir".to_string());
    c.location_exists = false;
    let r = cli.execute(c);
    assert!(matches!(r, Err(WpError::NotFound)));
}

#[test]
fn add_appends_and_saves() {
    let cli = Cli { command: Commands::Add { path: Some("/opt/tools".to_string()) } };
    let mut c = ctx();
    c.config = Some(two_entry_config());
    c.location = Some("/opt/tools".to_string());
    c.location_exists = true;
    c.tags_answer = Some("dev,tools".to_string());
    c.priority_answer = Some("5".to_string());
    c.active_answer = Some("true".to_string());
    let out = cli.execute(c).unwrap();
    let cfg = out.config.unwrap();
    assert_eq!(cfg.waypoints.len(), 3);
    assert_eq!(cfg.waypoints[2], wp("/opt/tools", &["dev", "tools"], 5, true));
    assert_eq!(cfg.path, "/usr/bin:/bin:/opt/tools");
    assert!(out.file_text.is_some());
}

#[test]
fn add_rejects_malformed_answers() {
    let base = || {
        let mut c = ctx();
        c.config = Some(two_entry_config());
        c.location = Some("/opt".to_string());
        c.location_exists = true;
        c.tags_answer = Some("dev".to_string());
        c.priority_answer = Some("5".to_string());
        c.active_answer = Some("true".to_string());
        c
    };
    let mut c = base();
    c.priority_answer = Some("five".to_string());
    assert!(matches!(
        Cli { command: Commands::Add { path: None } }.execute(c),
        Err(WpError::ParseError)
    ));
    let mut c = base();
    c.active_answer = Some("yes".to_string());
    assert!(matches!(
        Cli { command: Commands::Add { path: None } }.execute(c),
        Err(WpError::ParseError)
    ));
    let mut c = base();
    c.tags_answer = None;
    assert!(matches!(
        Cli { command: Commands::Add { path: None } }.execute(c),
        Err(WpError::Cancelled)
    ));
}

#[test]
fn remove_scenario_leaves_the_other_entry() {
    let cli = Cli { command: Commands::Remove };
    let mut c = ctx();
    c.config = Some(two_entry_config());
    c.selection = Some("/bin".to_string());
    let out = cli.execute(c).unwrap();
    let cfg = out.config.unwrap();
    assert_eq!(cfg.waypoints.len(), 1);
    assert_eq!(cfg.waypoints[0].location, "/usr/bin");
    assert_eq!(cfg.path, "/usr/bin");
    let back = Config::load(&out.file_text.unwrap()).unwrap();
    assert_eq!(back.waypoints.len(), 1);
    assert_eq!(back.waypoints[0].location, "/usr/bin");
}

#[test]
fn edit_with_invalid_json_reports_parse_error_and_keeps_list() {
    let cli = Cli { command: Commands::Edit };
    let mut c = ctx();
    c.config = Some(two_entry_config());
    c.selection = Some("/bin".to_string());
    c.submission = Some("{ not json".to_string());
    let r = cli.execute(c);
    assert!(matches!(r, Err(WpError::ParseError)));
}

#[test]
fn edit_with_empty_submission_changes_nothing() {
    let cli = Cli { command: Commands::Edit };
    let mut c = ctx();
    c.config = Some(two_entry_config());
    c.selection = Some("/bin".to_string());
    c.submission = Some(String::new());
    let out = cli.execute(c).unwrap();
    assert!(out.config.is_none());
    assert!(out.file_text.is_none());
}

#[test]
fn edit_replaces_the_selected_waypoint() {
    let cli = Cli { command: Commands::Edit };
    let mut c = ctx();
    c.config = Some(two_entry_config());
    c.selection = Some("/bin".to_string());
    let replacement = wp("/bin", &["custom"], 9, false);
    c.submission = Some(replacement.json());
    let out = cli.execute(c).unwrap();
    let cfg = out.config.unwrap();
    assert_eq!(cfg.waypoints.len(), 2);
    assert_eq!(cfg.waypoints[1], replacement);
    assert_eq!(cfg.path, "/usr/bin");
}

#[test]
fn edit_unknown_location_is_not_found() {
    let cli = Cli { command: Commands::Edit };
    let mut c = ctx();
    c.config = Some(two_entry_config());
    c.selection = Some("/nowhere".to_string());
    c.submission = Some("{}".to_string());
    assert!(matches!(cli.execute(c), Err(WpError::NotFound)));
}

#[test]
fn list_output_is_the_sorted_json() {
    let cli = Cli { command: Commands::List { tag: Some("system".to_string()) } };
    let mut c = ctx();
    c.config = Some(two_entry_config());
    let out = cli.execute(c).unwrap();
    let l = out.listing.unwrap();
    assert_eq!(l.len(), 2);
    assert!(out.output.starts_with('['));
    let v: serde_json::Value = serde_json::from_str(&out.output).unwrap();
    assert_eq!(v.as_array().unwrap().len(), 2);
}

#[test]
fn priority_answers() {
    assert_eq!(parse_priority("0"), Ok(0));
    assert_eq!(parse_priority("007"), Ok(7));
    assert_eq!(parse_priority("4294967295"), Ok(4294967295));
    assert!(matches!(parse_priority("4294967296"), Err(WpError::ParseError)));
    assert!(matches!(parse_priority(""), Err(WpError::ParseError)));
    assert!(matches!(parse_priority("12a"), Err(WpError::ParseError)));
    assert!(matches!(parse_priority("-1"), Err(WpError::ParseError)));
}

#[test]
fn active_answers() {
    assert_eq!(parse_active("true"), Ok(true));
    assert_eq!(parse_active("false"), Ok(false));
    assert!(matches!(parse_active("TRUE"), Err(WpError::ParseError)));
    assert!(matches!(parse_active(""), Err(WpError::ParseError)));
}
