use parview::palette::{
    default_colors, from_assignments, to_assignments, Assignment, PaletteError, PaletteOpt,
    PaletteRef,
};
use parview::{Color, ObjectID, Palette, PartialIDer};

fn id(names: &[&str]) -> ObjectID {
    ObjectID::new(names.iter().map(|s| s.to_string()).collect())
}

#[test]
fn default_colors_start_green_end_black() {
    let c = default_colors();
    assert_eq!(c.len(), 11);
    assert_eq!(c[0], Color(77, 175, 74));
    assert_eq!(c[10], Color(0, 0, 0));
}

#[test]
fn partial_ider_new_and_empty() {
    let p = PartialIDer::new(3, false);
    assert_eq!(p.bools, vec![false, false, false]);
    assert!(!p.is_empty());
    assert!(PartialIDer::new(0, true).is_empty());
}

#[test]
fn partial_ider_selects_levels() {
    let p = PartialIDer { bools: vec![true, false, true] };
    let name = id(&["a", "b", "c", "d"]);
    assert_eq!(p.partial(&name), vec!["a", "c"]);
    assert_eq!(p.as_id(&name), id(&["a", "c"]));
    let short = id(&["x", "y"]);
    assert_eq!(p.as_id(&short), id(&["x"]));
}

#[test]
fn partial_ider_as_string() {
    let p = PartialIDer { bools: vec![false, true, true, false, false, false, false] };
    assert_eq!(p.as_string(), "_23____");
    let all = PartialIDer::new(11, true);
    assert_eq!(all.as_string(), "12345678901");
    assert_eq!(PartialIDer::new(0, true).as_string(), "");
}

#[test]
fn get_color_is_stable() {
    let mut p = Palette::default();
    let a = id(&["1", "1"]);
    let c1 = p.get_color(&a);
    let c2 = p.get_color(&a);
    assert_eq!(c1, c2);
    assert_eq!(c1, Color(77, 175, 74));
}

#[test]
fn fresh_names_get_colors_in_turn() {
    let mut p = Palette::default();
    let c1 = p.get_color(&id(&["1", "1"]));
    let c2 = p.get_color(&id(&["1", "2"]));
    assert_ne!(c1, c2);
    assert_eq!(c2, Color(152, 78, 163));
}

#[test]
fn colors_wrap_after_the_last() {
    let mut p = Palette::default();
    let mut first = None;
    for n in 0..12 {
        let c = p.get_color(&id(&[&n.to_string()]));
        if n == 0 {
            first = Some(c);
        }
        if n == 11 {
            assert_eq!(Some(c), first);
        }
    }
}

#[test]
fn mask_groups_names() {
    let mut p = Palette::default();
    p.set_all_partial(false);
    p.set_partial(0, true);
    assert!(p.get_partial(0));
    assert!(!p.get_partial(1));
    let c1 = p.get_color(&id(&["1", "1"]));
    let c2 = p.get_color(&id(&["1", "2"]));
    let c3 = p.get_color(&id(&["2", "1"]));
    assert_eq!(c1, c2);
    assert_ne!(c1, c3);
    assert_eq!(p.partials_string(), "1_______");
}

#[test]
fn toggle_keeps_assigned_colors() {
    let mut p = Palette::default();
    let a = id(&["1", "1"]);
    let b = id(&["1", "2"]);
    let ca = p.get_color(&a);
    let _ = p.get_color(&b);
    p.toggle_partial(1);
    assert_eq!(p.partials_string(), "1_345678");
    // "1" was never assigned, so it gets the first color again, the same as ["1", "1"]
    let c = p.get_color(&b);
    assert_eq!(c, ca);
    assert_eq!(p.assigned().len(), 3);
    p.toggle_partial(1);
    assert_eq!(p.get_color(&b), Color(152, 78, 163));
}

#[test]
fn toggle_past_the_end_changes_nothing() {
    let mut p = Palette::default();
    let _ = p.get_color(&id(&["1"]));
    let before = PaletteRef::from_palette(&p);
    p.toggle_partial(8);
    p.toggle_partial(100);
    let after = PaletteRef::from_palette(&p);
    assert_eq!(before.next_color, 1);
    assert_eq!(after.next_color, 1);
    assert_eq!(p.partials_string(), "12345678");
}

#[test]
fn clear_assignments_forgets_colors() {
    let mut p = Palette::default();
    let _ = p.get_color(&id(&["1"]));
    let _ = p.get_color(&id(&["2"]));
    p.clear_assignments();
    assert_eq!(p.assigned().len(), 0);
    assert_eq!(p.get_color(&id(&["1"])), Color(255, 127, 0));
}

#[test]
fn assign_fixes_a_color() {
    let mut p = Palette::default();
    p.set_all_partial(false);
    p.set_partial(0, true);
    p.assign(id(&["A"]), Color(255, 0, 0));
    assert_eq!(p.get_color(&id(&["A", "x"])), Color(255, 0, 0));
    assert_eq!(p.assigned().get(&id(&["A"])), Some(Color(255, 0, 0)));
}

#[test]
fn palette_round_trip_through_written_form() {
    let mut p = Palette::default();
    let _ = p.get_color(&id(&["1", "1"]));
    let _ = p.get_color(&id(&["2", "1"]));
    p.toggle_partial(3);
    p.assign(id(&["B"]), Color(0, 255, 0));
    let r = PaletteRef::from_palette(&p);
    let opt = PaletteOpt {
        default_colors: Some(r.defaults),
        partials: Some(r.partials),
        assigned: Some(r.assigned),
        next_color: Some(r.next_color),
    };
    let read_back = opt.into_palette().unwrap();
    assert_eq!(p, read_back);
}

#[test]
fn palettes_with_different_colors_differ() {
    let mut p = Palette::default();
    let q = Palette::default();
    assert_eq!(p, q);
    let _ = p.get_color(&id(&["1"]));
    assert_ne!(p, q);
}

#[test]
fn empty_config_is_default() {
    let opt = PaletteOpt { default_colors: None, partials: None, assigned: None, next_color: None };
    assert_eq!(opt.into_palette().unwrap(), Palette::default());
}

#[test]
fn config_without_colors_is_refused() {
    let opt = PaletteOpt { default_colors: Some(vec![]), partials: None, assigned: None, next_color: None };
    assert_eq!(opt.into_palette().err(), Some(PaletteError::NoColors));
}

#[test]
fn config_with_next_color_out_of_range_is_refused() {
    let opt = PaletteOpt {
        default_colors: Some(vec![Color(1, 2, 3)]),
        partials: None,
        assigned: None,
        next_color: Some(1),
    };
    assert_eq!(opt.into_palette().err(), Some(PaletteError::NextColorOutOfRange));
    let default_length = PaletteOpt { default_colors: None, partials: None, assigned: None, next_color: Some(11) };
    assert_eq!(default_length.into_palette().err(), Some(PaletteError::NextColorOutOfRange));
}

#[test]
fn config_fills_absent_parts() {
    let opt = PaletteOpt {
        default_colors: Some(vec![Color(1, 2, 3), Color(4, 5, 6)]),
        partials: Some(PartialIDer { bools: vec![false, true] }),
        assigned: None,
        next_color: Some(1),
    };
    let mut p = opt.into_palette().unwrap();
    assert_eq!(p.partials_string(), "_2");
    assert_eq!(p.get_color(&id(&["a", "b"])), Color(4, 5, 6));
    assert_eq!(p.get_color(&id(&["c", "d"])), Color(1, 2, 3));
    assert_eq!(p.get_color(&id(&["e", "b"])), Color(4, 5, 6));
}

#[test]
fn assignments_last_entry_wins() {
    let m = from_assignments(vec![
        Assignment { names: id(&["A"]), color: Color(1, 1, 1) },
        Assignment { names: id(&["B"]), color: Color(2, 2, 2) },
        Assignment { names: id(&["A"]), color: Color(3, 3, 3) },
    ]);
    assert_eq!(m.len(), 2);
    assert_eq!(m.get(&id(&["A"])), Some(Color(3, 3, 3)));
    assert_eq!(m.get(&id(&["B"])), Some(Color(2, 2, 2)));
    assert_eq!(m.get(&id(&["C"])), None);
    let v = to_assignments(&m);
    assert_eq!(v.len(), 2);
    let back = from_assignments(v);
    assert!(back.same_as(&m));
}

#[test]
fn set_partial_past_the_end_changes_nothing() {
    let mut p = Palette::default();
    let _ = p.get_color(&id(&["1"]));
    p.set_partial(8, false);
    p.set_partial(1000, false);
    assert_eq!(p.partials_string(), "12345678");
    assert_eq!(PaletteRef::from_palette(&p).next_color, 1);
}
