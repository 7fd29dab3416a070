use parview::objects::contains_id;
use parview::{Change, ObjectID, ObjectTracker, Palette};

fn id(names: &[&str]) -> ObjectID {
    ObjectID::new(names.iter().map(|s| s.to_string()).collect())
}

fn removals(changes: &[Change]) -> Vec<ObjectID> {
    changes
        .iter()
        .filter_map(|c| match c {
            Change::Remove(k) => Some(k.clone()),
            _ => None,
        })
        .collect()
}

#[test]
fn object_ids_compare_by_names() {
    let a = id(&["1", "2"]);
    assert_eq!(a, a.clone());
    assert_ne!(a, id(&["1"]));
    assert_ne!(a, id(&["1", "3"]));
    assert!(a.same_as(&id(&["1", "2"])));
    assert!(contains_id(&vec![id(&["x"]), a.clone()], &a));
    assert!(!contains_id(&vec![id(&["x"])], &a));
}

#[test]
fn first_frame_creates_everything() {
    let mut tracker = ObjectTracker::new();
    let mut palette = Palette::default();
    let frame = vec![id(&["1", "1"]), id(&["1", "2"])];
    let changes = tracker.update(&frame, &mut palette);
    assert_eq!(changes.len(), 2);
    assert!(matches!(changes[0], Change::Create(0, _)));
    assert!(matches!(changes[1], Change::Create(1, _)));
    assert_eq!(tracker.len(), 2);
}

#[test]
fn update_twice_creates_and_removes_nothing() {
    let mut tracker = ObjectTracker::new();
    let mut palette = Palette::default();
    let frame = vec![id(&["1", "1"]), id(&["1", "2"]), id(&["2", "1"])];
    let first = tracker.update(&frame, &mut palette);
    let second = tracker.update(&frame, &mut palette);
    assert_eq!(first.len(), 3);
    assert_eq!(second.len(), 3);
    for (n, c) in second.iter().enumerate() {
        match c {
            Change::Update(i, _) => assert_eq!(*i, n),
            _ => panic!("expected an update"),
        }
    }
    for n in 0..3 {
        let (Change::Create(_, a), Change::Update(_, b)) = (&first[n], &second[n]) else {
            panic!("expected a create, then an update");
        };
        assert_eq!(a, b);
    }
}

#[test]
fn frame_a_then_frame_b() {
    let mut tracker = ObjectTracker::new();
    let mut palette = Palette::default();
    let frame_a = vec![id(&["1", "1"]), id(&["1", "2"])];
    let frame_b = vec![id(&["1", "1"]), id(&["2", "1"])];
    let _ = tracker.update(&frame_a, &mut palette);
    let changes = tracker.update(&frame_b, &mut palette);
    assert_eq!(tracker.len(), 2);
    assert!(tracker.contains(&id(&["1", "1"])));
    assert!(tracker.contains(&id(&["2", "1"])));
    assert!(!tracker.contains(&id(&["1", "2"])));
    assert_eq!(changes.len(), 3);
    assert!(matches!(changes[0], Change::Update(0, _)));
    assert!(matches!(changes[1], Change::Create(1, _)));
    assert_eq!(removals(&changes), vec![id(&["1", "2"])]);
}

#[test]
fn duplicate_identity_creates_once_then_updates() {
    let mut tracker = ObjectTracker::new();
    let mut palette = Palette::default();
    let frame = vec![id(&["a"]), id(&["a"])];
    let changes = tracker.update(&frame, &mut palette);
    assert_eq!(changes.len(), 2);
    assert!(matches!(changes[0], Change::Create(0, _)));
    assert!(matches!(changes[1], Change::Update(1, _)));
    assert_eq!(tracker.len(), 1);
}

#[test]
fn empty_frame_removes_everything() {
    let mut tracker = ObjectTracker::new();
    let mut palette = Palette::default();
    let _ = tracker.update(&vec![id(&["a"]), id(&["b"])], &mut palette);
    let changes = tracker.update(&vec![], &mut palette);
    assert_eq!(changes.len(), 2);
    let gone = removals(&changes);
    assert!(gone.contains(&id(&["a"])));
    assert!(gone.contains(&id(&["b"])));
    assert_eq!(tracker.len(), 0);
}

#[test]
fn tracker_colors_follow_the_palette() {
    let mut tracker = ObjectTracker::new();
    let mut palette = Palette::default();
    palette.set_all_partial(false);
    palette.set_partial(0, true);
    let frame = vec![id(&["1", "1"]), id(&["1", "2"]), id(&["2", "1"])];
    let changes = tracker.update(&frame, &mut palette);
    let colors: Vec<_> = changes
        .iter()
        .map(|c| match c {
            Change::Create(_, col) | Change::Update(_, col) => *col,
            Change::Remove(_) => panic!("nothing to remove"),
        })
        .collect();
    assert_eq!(colors[0], colors[1]);
    assert_ne!(colors[0], colors[2]);
}
