use waypoint::waypoint::{path2waypoints, split_on_char, split_path, Waypoint};

#[test]
fn test_path2waypoints() {
    let path = "/usr/bin:/usr/local/bin:/bin".to_string();
    let waypoints = vec![
        Waypoint {
            location: "/usr/bin".to_string(),
            tags: vec!["system".to_string()],
            priority: 0,
            active: true,
        },
        Waypoint {
            location: "/usr/local/bin".to_string(),
            tags: vec!["system".to_string()],
            priority: 0,
            active: true,
        },
        Waypoint {
            location: "/bin".to_string(),
            tags: vec!["system".to_string()],
            priority: 0,
            active: true,
        },
    ];
    assert_eq!(path2waypoints(path), waypoints);
}

#[test]
fn from_location_defaults() {
    let w = Waypoint::from_location("/opt/tools".to_string());
    assert_eq!(w.location, "/opt/tools");
    assert_eq!(w.tags, vec!["system".to_string()]);
    assert_eq!(w.priority, 0);
    assert!(w.active);
}

#[test]
fn split_keeps_empty_segments() {
    let parts = split_path("a::b:");
    assert_eq!(
        parts,
        vec!["a".to_string(), "".to_string(), "b".to_string(), "".to_string()]
    );
    let parts = split_path("");
    assert_eq!(parts, vec!["".to_string()]);
}

#[test]
fn split_on_comma() {
    let parts = split_on_char("dev,work", ',');
    assert_eq!(parts, vec!["dev".to_string(), "work".to_string()]);
}

#[test]
fn waypoint_equality_is_field_equality() {
    let a = Waypoint::from_location("/bin".to_string());
    let mut b = Waypoint::from_location("/bin".to_string());
    assert_eq!(a, b);
    b.priority = 1;
    assert_ne!(a, b);
    let c = a.clone();
    assert_eq!(a, c);
}
