use bbedit_jump_points::{JumpPoint, PointsMap, Timestamp};
use chrono::{TimeZone, Utc};

const SAVED_POINTS: &str = "\
123:
- filename: /tmp/foo
  line: 9
  column: 42
  added: 2023-10-03T07:59:59Z
- filename: /tmp/bar
  line: 17
  column: 23
  added: 2023-10-03T08:00:00Z
    ";

fn utc(y: i32, mo: u32, d: u32, h: u32, mi: u32, s: u32) -> Timestamp {
    let t = Utc.with_ymd_and_hms(y, mo, d, h, mi, s).unwrap();
    Timestamp::new(t.timestamp(), t.timestamp_subsec_nanos())
}

fn parse_added(text: &str) -> Timestamp {
    let t = chrono::DateTime::parse_from_rfc3339(text).unwrap();
    Timestamp::new(t.timestamp(), t.timestamp_subsec_nanos())
}

/// Reads the stored YAML document into a map, then prunes it at `oldest_time`.
fn points_from(points_data: String, oldest_time: Timestamp) -> PointsMap {
    let doc: serde_yaml::Value = serde_yaml::from_str(&points_data).unwrap();
    let mut map = PointsMap::new();
    if let Some(entries) = doc.as_mapping() {
        for (key, records) in entries.iter() {
            let key = key.as_i64().unwrap() as i32;
            let mut stack = Vec::new();
            for rec in records.as_sequence().unwrap().iter() {
                stack.push(JumpPoint::new(
                    rec.get("filename").unwrap().as_str().unwrap().to_string(),
                    rec.get("line").unwrap().as_i64().unwrap(),
                    rec.get("column").unwrap().as_i64().unwrap(),
                    parse_added(rec.get("added").unwrap().as_str().unwrap()),
                ));
            }
            map.insert(key, stack);
        }
    }
    map.prune_expired(oldest_time)
}

fn point(filename: &str, line: i64, column: i64, added: Timestamp) -> JumpPoint {
    JumpPoint::new(filename.to_string(), line, column, added)
}

#[test]
fn all_points_are_current() {
    let expiration = utc(2023, 10, 3, 7, 59, 59);

    let points_map = points_from(SAVED_POINTS.to_string(), expiration);

    assert_eq!(points_map.len(), 1);
    assert!(points_map.get(123)
        == Some(&vec![
            point("/tmp/foo", 9, 42, utc(2023, 10, 3, 7, 59, 59)),
            point("/tmp/bar", 17, 23, utc(2023, 10, 3, 8, 0, 0)),
        ]));
}

#[test]
fn some_points_are_current() {
    let expiration = utc(2023, 10, 3, 8, 0, 0);

    let points_map = points_from(SAVED_POINTS.to_string(), expiration);

    assert_eq!(points_map.len(), 1);
    assert!(points_map.get(123) == Some(&vec![point("/tmp/bar", 17, 23, utc(2023, 10, 3, 8, 0, 0))]));
}

#[test]
fn no_points_are_current() {
    let expiration = utc(2023, 10, 3, 8, 0, 1);

    let points_map = points_from(SAVED_POINTS.to_string(), expiration);

    assert_eq!(points_map.len(), 0);
    assert!(!points_map.contains_key(123));
}

#[test]
fn cutoff_equal_to_added_keeps_the_point() {
    let added = Timestamp::new(1_696_319_999, 500);
    let mut map = PointsMap::new();
    map.push_point(1, point("/tmp/a", 1, 1, added));
    let kept = map.prune_expired(added);
    assert_eq!(kept.get(1).map(|s| s.len()), Some(1));

    let mut map = PointsMap::new();
    map.push_point(1, point("/tmp/a", 1, 1, added));
    let one_tick_later = Timestamp::new(1_696_319_999, 501);
    let dropped = map.prune_expired(one_tick_later);
    assert!(!dropped.contains_key(1));
    assert_eq!(dropped.len(), 0);
}

#[test]
fn pruning_removes_only_emptied_keys() {
    let old = utc(2023, 10, 3, 7, 0, 0);
    let new = utc(2023, 10, 3, 9, 0, 0);
    let mut map = PointsMap::new();
    map.push_point(1, point("/tmp/a", 1, 1, old));
    map.push_point(2, point("/tmp/b", 2, 2, old));
    map.push_point(2, point("/tmp/c", 3, 3, new));
    let pruned = map.prune_expired(utc(2023, 10, 3, 8, 0, 0));
    assert!(!pruned.contains_key(1));
    assert!(pruned.get(2) == Some(&vec![point("/tmp/c", 3, 3, new)]));
    assert_eq!(pruned.len(), 1);
}

#[test]
fn empty_stacks_are_dropped() {
    let now = utc(2023, 10, 3, 8, 0, 0);
    let mut map = PointsMap::new();
    map.insert(4, Vec::new());
    map.insert(5, vec![point("/tmp/e", 5, 5, now)]);
    let cleaned = map.without_empty_stacks();
    assert!(!cleaned.contains_key(4));
    assert!(cleaned.contains_key(5));
    assert_eq!(cleaned.len(), 1);
}

#[test]
fn push_then_pop_is_lifo() {
    let now = utc(2023, 10, 3, 8, 0, 0);
    let pushed = vec![
        point("/tmp/one", 1, 2, now),
        point("/tmp/two", 3, 4, now),
        point("/tmp/three", 5, 6, now),
    ];
    let mut map = PointsMap::new();
    for p in pushed.iter() {
        map.push_point(9, p.clone());
    }
    assert_eq!(map.get(9).map(|s| s.len()), Some(3));
    let mut popped = Vec::new();
    for _ in 0..3 {
        popped.push(map.pop_point(9).unwrap());
    }
    let mut reversed = pushed.clone();
    reversed.reverse();
    assert!(popped == reversed);
    assert!(!map.contains_key(9));
    assert!(map.pop_point(9).is_none());
}

#[test]
fn keys_do_not_interfere() {
    let now = utc(2023, 10, 3, 8, 0, 0);
    let mut map = PointsMap::new();
    map.push_point(1, point("/tmp/a", 1, 1, now));
    map.push_point(2, point("/tmp/b", 2, 2, now));
    map.push_point(1, point("/tmp/c", 3, 3, now));
    assert!(map.get(2) == Some(&vec![point("/tmp/b", 2, 2, now)]));
    let top = map.pop_point(1).unwrap();
    assert!(top == point("/tmp/c", 3, 3, now));
    assert!(map.get(2) == Some(&vec![point("/tmp/b", 2, 2, now)]));
    assert!(map.get(1) == Some(&vec![point("/tmp/a", 1, 1, now)]));
}

#[test]
fn push_to_empty_then_pop() {
    let now = utc(2024, 1, 1, 0, 0, 0);
    let mut map = PointsMap::new();
    map.push_point(7, point("/tmp/baz", 1, 1, now));
    assert_eq!(map.len(), 1);
    assert!(map.get(7) == Some(&vec![point("/tmp/baz", 1, 1, now)]));
    let popped = map.pop_point(7);
    assert!(popped == Some(point("/tmp/baz", 1, 1, now)));
    assert!(!map.contains_key(7));
    assert_eq!(map.len(), 0);
}

#[test]
fn pop_on_missing_key_is_none() {
    let mut map = PointsMap::new();
    assert!(map.pop_point(3).is_none());
    map.insert(3, Vec::new());
    assert!(map.pop_point(3).is_none());
    assert!(map.contains_key(3));
}

#[test]
fn insert_replaces_a_stack() {
    let now = utc(2023, 10, 3, 8, 0, 0);
    let mut map = PointsMap::new();
    map.push_point(1, point("/tmp/a", 1, 1, now));
    map.insert(1, vec![point("/tmp/z", 9, 9, now)]);
    assert!(map.get(1) == Some(&vec![point("/tmp/z", 9, 9, now)]));
    let entries = map.into_entries();
    assert_eq!(entries.len(), 1);
    assert_eq!(entries[0].0, 1);
}

#[test]
fn timestamps_order_by_seconds_then_nanos() {
    let a = Timestamp::new(10, 5);
    assert!(a.not_before(&Timestamp::new(10, 5)));
    assert!(a.not_before(&Timestamp::new(9, 999_999_999)));
    assert!(!a.not_before(&Timestamp::new(10, 6)));
    assert!(!a.not_before(&Timestamp::new(11, 0)));
}

#[test]
fn cutoff_is_an_hour_before_now() {
    let now = utc(2023, 10, 3, 8, 0, 0);
    assert_eq!(now.minus_seconds(3600), Some(utc(2023, 10, 3, 7, 0, 0)));
    assert_eq!(Timestamp::new(i64::MIN, 0).minus_seconds(1), None);
    assert_eq!(Timestamp::new(i64::MAX, 0).minus_seconds(-1), None);
}
