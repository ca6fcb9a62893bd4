use waypoint::config::{export_path, get_config_path, list_paths, remove_path, Config};
use waypoint::errors::WpError;
use waypoint::waypoint::Waypoint;

fn wp(location: &str, tags: &[&str], priority: u32, active: bool) -> Waypoint {
    Waypoint {
        location: location.to_string(),
        tags: tags.iter().map(|t| t.to_string()).collect(),
        priority,
        active,
    }
}

fn sample_config() -> Config {
    Config {
        path: String::new(),
        waypoints: vec![
            wp("/usr/bin", &["system"], 2, true),
            wp("/opt/dev", &["dev"], 1, true),
            wp("/old", &["system", "dev"], 3, false),
        ],
        metadata: vec![],
    }
}

#[test]
fn save_recomputes_path_from_active_waypoints() {
    let mut c = Config {
        path: "stale".to_string(),
        waypoints: vec![
            wp("/usr/bin", &["system"], 0, true),
            wp("/off", &[], 0, false),
            wp("/bin", &["system"], 0, true),
        ],
        metadata: vec![],
    };
    let text = c.save();
    assert_eq!(c.path, "/usr/bin:/bin");
    let back = Config::load(&text).unwrap();
    assert_eq!(back.path, "/usr/bin:/bin");
}

#[test]
fn save_with_no_active_waypoints_renders_empty() {
    let mut c = Config {
        path: "stale".to_string(),
        waypoints: vec![wp("/off", &[], 0, false)],
        metadata: vec![],
    };
    c.save();
    assert_eq!(c.path, "");
}

#[test]
fn freeze_seeds_from_environment_path() {
    let c = Config::freeze("/usr/bin:/bin".to_string(), false, false).unwrap();
    assert_eq!(c.waypoints.len(), 2);
    assert_eq!(c.waypoints[0], wp("/usr/bin", &["system"], 0, true));
    assert_eq!(c.waypoints[1], wp("/bin", &["system"], 0, true));
    assert_eq!(c.path, "/usr/bin:/bin");
}

#[test]
fn freeze_refuses_existing_file_without_overwrite() {
    assert!(matches!(
        Config::freeze("/bin".to_string(), true, false),
        Err(WpError::AlreadyExists)
    ));
    assert!(Config::freeze("/bin".to_string(), true, true).is_ok());
}

#[test]
fn list_sorts_by_priority() {
    let c = sample_config();
    let l = list_paths(&c, None);
    let locations: Vec<&str> = l.iter().map(|w| w.location.as_str()).collect();
    assert_eq!(locations, vec!["/opt/dev", "/usr/bin", "/old"]);
}

#[test]
fn list_filters_by_tag() {
    let c = sample_config();
    let tag = "dev".to_string();
    let l = list_paths(&c, Some(&tag));
    let locations: Vec<&str> = l.iter().map(|w| w.location.as_str()).collect();
    assert_eq!(locations, vec!["/opt/dev", "/old"]);
    let tag = "system".to_string();
    let l = list_paths(&c, Some(&tag));
    let locations: Vec<&str> = l.iter().map(|w| w.location.as_str()).collect();
    assert_eq!(locations, vec!["/usr/bin", "/old"]);
    let tag = "nothing".to_string();
    assert!(list_paths(&c, Some(&tag)).is_empty());
}

#[test]
fn list_keeps_stored_order_of_equal_priorities() {
    let c = Config {
        path: String::new(),
        waypoints: vec![
            wp("/a", &[], 1, true),
            wp("/b", &[], 0, true),
            wp("/c", &[], 1, true),
            wp("/d", &[], 0, true),
            wp("/e", &[], 1, true),
        ],
        metadata: vec![],
    };
    let l = list_paths(&c, None);
    let locations: Vec<&str> = l.iter().map(|w| w.location.as_str()).collect();
    assert_eq!(locations, vec!["/b", "/d", "/a", "/c", "/e"]);
}

#[test]
fn list_keeps_stored_order_of_equal_priorities_under_a_tag() {
    let c = Config {
        path: String::new(),
        waypoints: vec![
            wp("/a", &["dev"], 2, true),
            wp("/b", &["sys"], 2, true),
            wp("/c", &["dev"], 2, true),
            wp("/d", &["dev"], 1, true),
        ],
        metadata: vec![],
    };
    let tag = "dev".to_string();
    let l = list_paths(&c, Some(&tag));
    let locations: Vec<&str> = l.iter().map(|w| w.location.as_str()).collect();
    assert_eq!(locations, vec!["/d", "/a", "/c"]);
}

#[test]
fn remove_deletes_every_matching_location() {
    let mut c = Config {
        path: String::new(),
        waypoints: vec![
            wp("/usr/bin", &["system"], 0, true),
            wp("/bin", &["system"], 0, true),
            wp("/bin", &["dup"], 1, true),
        ],
        metadata: vec![],
    };
    remove_path(&mut c, &"/bin".to_string());
    assert_eq!(c.waypoints.len(), 1);
    assert_eq!(c.waypoints[0].location, "/usr/bin");
    let text = c.save();
    assert_eq!(c.path, "/usr/bin");
    let back = Config::load(&text).unwrap();
    assert_eq!(back.waypoints.len(), 1);
}

#[test]
fn export_prints_cached_path() {
    let c = Config {
        path: "/a:/b".to_string(),
        waypoints: vec![],
        metadata: vec![],
    };
    assert_eq!(export_path(&c), "/a:/b");
}

#[test]
fn config_path_under_home() {
    let p = get_config_path(Some("/home/someone".to_string())).unwrap();
    assert_eq!(p, "/home/someone/.config/waypoint/config.json");
    assert!(matches!(get_config_path(None), Err(WpError::ConfigError)));
}
