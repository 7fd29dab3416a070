use parview::{Change, Command, ObjectID, Palette, Playback, Timer};

fn id(names: &[&str]) -> ObjectID {
    ObjectID::new(names.iter().map(|s| s.to_string()).collect())
}

#[test]
fn playback_commands_reach_timer_and_palette() {
    let mut p = Playback::new(Timer::new(vec![1, 2], Some(3)), Palette::default());
    assert!(p.handle(Command::Faster));
    assert_eq!(p.timer().get_dt(), 2);
    assert!(p.handle(Command::Reverse));
    assert_eq!(p.timer().get_dt(), -2);
    assert!(p.handle(Command::Slower));
    assert_eq!(p.timer().get_dt(), -1);
    assert!(p.handle(Command::TogglePartial(2)));
    assert_eq!(p.palette().partials_string(), "12_45678");
    assert!(p.handle(Command::AllPartials(false)));
    assert_eq!(p.palette().partials_string(), "________");
    assert!(p.handle(Command::Pause));
    assert!(p.is_paused());
    assert!(!p.handle(Command::Quit));
    assert!(!p.handle(Command::SaveImage));
    assert!(p.is_paused());
}

#[test]
fn tick_reports_new_frames_only() {
    let mut t = Timer::new(vec![1], Some(4));
    t.set_fps(2);
    let mut p = Playback::new(t, Palette::default());
    let _ = p.show(0, &vec![id(&["a"])]);
    assert_eq!(p.shown(), Some(0));
    assert_eq!(p.tick(), None);
    assert_eq!(p.tick(), Some(1));
    let changes = p.show(1, &vec![id(&["a"]), id(&["b"])]);
    assert!(matches!(changes[0], Change::Update(0, _)));
    assert!(matches!(changes[1], Change::Create(1, _)));
    assert_eq!(p.tick(), None);
    p.handle(Command::Pause);
    assert_eq!(p.tick(), None);
    assert_eq!(p.timer().get_time(), 3);
}

#[test]
fn tick_before_anything_is_shown_reports_the_frame() {
    let mut p = Playback::new(Timer::new(vec![1], None), Palette::default());
    assert_eq!(p.tick(), Some(1));
}
