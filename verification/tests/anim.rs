use guise::anim::{AnimatorEvent, Loop, Prop, StaggerAxis, StaggerFrom};

#[test]
fn loop_counts_clamp_to_at_least_one() {
    assert_eq!(Loop::Once.count(), Some(1));
    assert_eq!(Loop::Times(0).count(), Some(1));
    assert_eq!(Loop::Times(1).count(), Some(1));
    assert_eq!(Loop::Times(5).count(), Some(5));
    assert_eq!(Loop::Forever.count(), None);
    assert_eq!(Loop::default(), Loop::Once);
}

#[test]
fn only_the_colour_props_take_colours() {
    assert!(Prop::Background.is_color());
    assert!(Prop::BorderColor.is_color());
    assert!(Prop::TextColor.is_color());
    assert!(!Prop::Opacity.is_color());
    assert!(!Prop::Width.is_color());
    assert!(!Prop::Custom("glow").is_color());
}

#[test]
fn small_enums_compare_by_variant() {
    assert_eq!(StaggerFrom::default(), StaggerFrom::First);
    assert_ne!(StaggerFrom::Index(2), StaggerFrom::Index(3));
    assert_ne!(StaggerAxis::X, StaggerAxis::Y);
    assert_ne!(AnimatorEvent::Begin, AnimatorEvent::Complete);
}
