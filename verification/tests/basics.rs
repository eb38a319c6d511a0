use azalea::chat::{BaseComponent, Style};
use azalea::geometry::{axis_trial, face_trial, Axis, Direction, FaceTrial, Motion};
use azalea::protocol::PacketFlow;
use azalea::signing::MessageSignature;
use azalea::weight::add_weights;

#[test]
fn it_works() {
    let result = 2 + 2;
    assert_eq!(result, 4);
}

#[test]
fn lib_it_works() {
    let result = 2 + 2;
    assert_eq!(result, 4);
}

#[test]
fn base_component_starts_empty_and_plain() {
    let c = BaseComponent::new();
    assert!(c.siblings.is_empty());
    assert_eq!(c.style.bold, None);
    assert_eq!(c.style.italic, None);
    assert_eq!(c.style.underlined, None);
    assert_eq!(c.style.strikethrough, None);
    assert_eq!(c.style.obfuscated, None);
    assert!(!c.style.reset);
    let d = BaseComponent::default();
    assert!(d.siblings.is_empty());
    assert!(!Style::default().reset);
}

#[test]
fn message_signature_defaults_to_empty() {
    assert!(MessageSignature::default().bytes.is_empty());
}

#[test]
fn packet_flows_differ() {
    assert_ne!(PacketFlow::ClientToServer, PacketFlow::ServerToClient);
}

#[test]
fn weights_saturate_at_infinity() {
    assert_eq!(add_weights(2, 3), 5);
    assert_eq!(add_weights(u64::MAX, 1), u64::MAX);
    assert_eq!(add_weights(u64::MAX - 1, 1), u64::MAX);
    assert_eq!(add_weights(u64::MAX - 1, 7), u64::MAX);
    assert_eq!(add_weights(0, 0), 0);
}

#[test]
fn ray_is_tried_on_every_moving_axis() {
    let west = FaceTrial { axis: Axis::X, direction: Direction::West, at_max: false };
    let east = FaceTrial { axis: Axis::X, direction: Direction::East, at_max: true };
    let down = FaceTrial { axis: Axis::Y, direction: Direction::Down, at_max: false };
    let up = FaceTrial { axis: Axis::Y, direction: Direction::Up, at_max: true };
    let south = FaceTrial { axis: Axis::Z, direction: Direction::South, at_max: false };
    let north = FaceTrial { axis: Axis::Z, direction: Direction::North, at_max: true };
    // a ray along +z meets the box at its lower z bound
    assert_eq!(face_trial(Motion::Still, Motion::Still, Motion::Forward), (None, None, Some(south)));
    assert_eq!(face_trial(Motion::Still, Motion::Still, Motion::Backward), (None, None, Some(north)));
    // a ray toward +x and -y can strike the west face or the top face
    assert_eq!(face_trial(Motion::Forward, Motion::Backward, Motion::Still), (Some(west), Some(up), None));
    assert_eq!(
        face_trial(Motion::Forward, Motion::Backward, Motion::Forward),
        (Some(west), Some(up), Some(south))
    );
    assert_eq!(face_trial(Motion::Backward, Motion::Still, Motion::Still), (Some(east), None, None));
    assert_eq!(face_trial(Motion::Still, Motion::Forward, Motion::Backward), (None, Some(down), Some(north)));
    assert_eq!(
        face_trial(Motion::Backward, Motion::Forward, Motion::Backward),
        (Some(east), Some(down), Some(north))
    );
    assert_eq!(face_trial(Motion::Still, Motion::Still, Motion::Still), (None, None, None));
}

#[test]
fn each_axis_has_its_own_trial() {
    assert_eq!(axis_trial(Axis::X, Motion::Still), None);
    assert_eq!(
        axis_trial(Axis::Y, Motion::Backward),
        Some(FaceTrial { axis: Axis::Y, direction: Direction::Up, at_max: true })
    );
    assert_eq!(
        axis_trial(Axis::Z, Motion::Forward),
        Some(FaceTrial { axis: Axis::Z, direction: Direction::South, at_max: false })
    );
}

#[test]
fn axis_picks_its_own_value() {
    assert_eq!(Axis::X.pick(1.5, 2.5, 3.5), 1.5);
    assert_eq!(Axis::Y.pick(1.5, 2.5, 3.5), 2.5);
    assert_eq!(Axis::Z.pick(1.5, 2.5, 3.5), 3.5);
}
