use waypoint::config::{Config, MetaPair};
use waypoint::errors::WpError;
use waypoint::waypoint::Waypoint;

fn wp(location: &str, tags: &[&str], priority: u32, active: bool) -> Waypoint {
    Waypoint {
        location: location.to_string(),
        tags: tags.iter().map(|t| t.to_string()).collect(),
        priority,
        active,
    }
}

#[test]
fn waypoint_json_round_trip() {
    let w = wp("/usr/bin", &["system"], 0, true);
    let text = w.json();
    let back = Waypoint::from_json(&text).unwrap();
    assert_eq!(back, w);
}

#[test]
fn waypoint_json_round_trip_empty_tags() {
    let w = wp("/opt", &[], 4294967295, false);
    let back = Waypoint::from_json(&w.json()).unwrap();
    assert_eq!(back, w);
}

#[test]
fn waypoint_json_round_trip_escapes() {
    let w = wp(
        "/weird \"dir\"\\with\nnewline\tand\rcr",
        &["a,b", "", "caf\u{00e9} \u{1F600}", "ctl\u{0001}\u{0008}\u{000c}\u{001f}"],
        42,
        true,
    );
    let back = Waypoint::from_json(&w.json()).unwrap();
    assert_eq!(back, w);
}

#[test]
fn waypoint_json_exact_text() {
    let w = wp("/bin", &["system"], 7, true);
    let expected = "{\n  \"location\": \"/bin\",\n  \"tags\": [\n    \"system\"\n  ],\n  \"priority\": 7,\n  \"active\": true\n}";
    assert_eq!(w.json(), expected);
}

#[test]
fn from_json_accepts_serde_style_text() {
    let text = "{\n  \"location\": \"/usr/bin\",\n  \"tags\": [\n    \"system\",\n    \"dev\"\n  ],\n  \"priority\": 3,\n  \"active\": false\n}";
    let w = Waypoint::from_json(text).unwrap();
    assert_eq!(w, wp("/usr/bin", &["system", "dev"], 3, false));
}

#[test]
fn from_json_accepts_compact_text() {
    let w = Waypoint::from_json("{\"location\":\"/b\",\"tags\":[],\"priority\":0,\"active\":true}")
        .unwrap();
    assert_eq!(w, wp("/b", &[], 0, true));
}

#[test]
fn from_json_rejects_malformed_text() {
    assert_eq!(Waypoint::from_json(""), Err(WpError::ParseError));
    assert_eq!(Waypoint::from_json("not json at all"), Err(WpError::ParseError));
    assert_eq!(
        Waypoint::from_json("{\"location\":\"/b\",\"tags\":[],\"priority\":0}"),
        Err(WpError::ParseError)
    );
    // trailing garbage
    assert_eq!(
        Waypoint::from_json(
            "{\"location\":\"/b\",\"tags\":[],\"priority\":0,\"active\":true} x"
        ),
        Err(WpError::ParseError)
    );
    // number with a leading zero
    assert_eq!(
        Waypoint::from_json("{\"location\":\"/b\",\"tags\":[],\"priority\":01,\"active\":true}"),
        Err(WpError::ParseError)
    );
    // number too large for u32
    assert_eq!(
        Waypoint::from_json(
            "{\"location\":\"/b\",\"tags\":[],\"priority\":4294967296,\"active\":true}"
        ),
        Err(WpError::ParseError)
    );
    // unterminated string
    assert_eq!(
        Waypoint::from_json("{\"location\":\"/b,\"tags\":[],\"priority\":0,\"active\":true}"),
        Err(WpError::ParseError)
    );
}

#[test]
fn from_json_unescapes() {
    let text = "{\"location\":\"a\\\"b\\\\c\\n\\t\\r\\b\\f\\/\\u0001\",\"tags\":[],\"priority\":0,\"active\":true}";
    let w = Waypoint::from_json(text).unwrap();
    assert_eq!(w.location, "a\"b\\c\n\t\r\u{0008}\u{000c}/\u{0001}");
}

#[test]
fn from_json_accepts_general_unicode_escapes() {
    let text = "{\"location\":\"\\u0041\\u00e9\\u4e2d\",\"tags\":[],\"priority\":0,\"active\":true}";
    let w = Waypoint::from_json(text).unwrap();
    assert_eq!(w.location, "A\u{00e9}\u{4e2d}");
    // a lone surrogate is not a scalar value
    let bad = "{\"location\":\"\\ud800\",\"tags\":[],\"priority\":0,\"active\":true}";
    assert_eq!(Waypoint::from_json(bad), Err(WpError::ParseError));
}

#[test]
fn config_json_round_trip() {
    let mut c = Config {
        path: String::new(),
        waypoints: vec![
            wp("/usr/bin", &["system"], 0, true),
            wp("/opt/x", &["dev", "x"], 2, false),
        ],
        metadata: vec![MetaPair { key: "note".to_string(), value: "kept".to_string() }],
    };
    let text = c.save();
    let back = Config::load(&text).unwrap();
    assert_eq!(back.path, c.path);
    assert_eq!(back.waypoints, c.waypoints);
    assert_eq!(back.metadata.len(), 1);
    assert_eq!(back.metadata[0].key, "note");
    assert_eq!(back.metadata[0].value, "kept");
}

#[test]
fn config_load_rejects_malformed_text() {
    assert!(matches!(Config::load("{}"), Err(WpError::ParseError)));
    assert!(matches!(Config::load(""), Err(WpError::ParseError)));
    assert!(matches!(Config::load("[1, 2]"), Err(WpError::ParseError)));
}

#[test]
fn waypoint_json_is_valid_for_serde() {
    let w = wp("/weird \"dir\"\\x\n", &["a", "caf\u{00e9}"], 9, true);
    let text = w.json();
    let v: serde_json::Value = serde_json::from_str(&text).unwrap();
    assert_eq!(v["location"].as_str().unwrap(), w.location);
    assert_eq!(v["priority"].as_u64().unwrap(), 9);
    assert_eq!(v["active"].as_bool().unwrap(), true);
    let tags: Vec<String> = v["tags"]
        .as_array()
        .unwrap()
        .iter()
        .map(|t| t.as_str().unwrap().to_string())
        .collect();
    assert_eq!(tags, w.tags);
}

#[test]
fn config_json_is_valid_for_serde() {
    let mut c = Config {
        path: String::new(),
        waypoints: vec![wp("/usr/bin", &["system"], 0, true), wp("/bin", &[], 1, false)],
        metadata: vec![],
    };
    let text = c.save();
    let v: serde_json::Value = serde_json::from_str(&text).unwrap();
    assert_eq!(v["path"].as_str().unwrap(), "/usr/bin");
    assert_eq!(v["waypoints"].as_array().unwrap().len(), 2);
    assert!(v["metadata"].as_object().unwrap().is_empty());
}
