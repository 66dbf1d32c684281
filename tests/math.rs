use s4mc_pathing::action::{default_moveset, moveset_2d_cardinal, MoveAction};
use s4mc_pathing::config::Configuration;
use s4mc_pathing::data::HazardMultiplier;
use s4mc_pathing::math::{Vector2i, Vector3i};
use s4mc_pathing::position::GraphPosition;
use s4mc_pathing::world::{Space, VoxelSpace};

#[test]
fn equality() {
    let config1 = Configuration {
        hazard: HazardMultiplier { unknown: 2, non_solid: 3, solid: 5, dangerous: 7 },
        cost_inf: 11,
        timeout_millis: 13,
    };

    let config2 = Configuration {
        hazard: HazardMultiplier { unknown: 2, non_solid: 3, solid: 5, dangerous: 7 },
        cost_inf: 11,
        timeout_millis: 13,
    };

    assert_eq!(config1, config2, "Configurations were not equal!");
}

#[test]
fn default_configuration() {
    let c = Configuration::new();
    assert_eq!(c.cost_inf, 10_000_000);
    assert_eq!(c.timeout_millis, 2000);
    assert_eq!(c.hazard, HazardMultiplier { unknown: 10, non_solid: 21, solid: 10, dangerous: 50 });
    assert_eq!(HazardMultiplier::new(), c.hazard);
}

#[test]
fn vector_operations() {
    let a = Vector3i::new(1, -2, 3);
    let b = Vector3i::new(-4, 2, 3);
    assert_eq!(a.offset_by(b), Vector3i::new(-3, 0, 6));
    assert_eq!(Vector3i::distance(&a, &b), 900);
    assert_eq!(Vector3i::distance(&b, &a), 900);
    assert_eq!(a.distance_to(&b), 900);
    assert_eq!(a.distance_squared(&b), 41);
    assert_eq!(Vector3i::zero(), Vector3i::new(0, 0, 0));
    assert_eq!(Vector2i::distance(&Vector2i::new(0, 0), &Vector2i::new(-3, 4)), 700);
    assert_eq!(Vector2i::new(i32::MAX, 0).offset_by(Vector2i::new(1, 0)), Vector2i::new(i32::MIN, 0));
    assert!(Vector2i::new(1, 2).same_as(&Vector2i::new(1, 2)));
    assert!(!Vector2i::new(1, 2).same_as(&Vector2i::new(2, 1)));
}

#[test]
fn packing_is_one_to_one() {
    let ps = [Vector2i::new(0, 0), Vector2i::new(1, 0), Vector2i::new(0, 1), Vector2i::new(-1, 0), Vector2i::new(i32::MIN, i32::MAX)];
    for a in ps.iter() {
        for b in ps.iter() {
            assert_eq!(a.pack() == b.pack(), a == b);
        }
    }
    assert_eq!(Vector2i::new(i32::MIN, i32::MIN).pack(), 0);
    assert_eq!(Vector3i::new(i32::MAX, i32::MAX, i32::MAX).pack(), (1u128 << 96) - 1);
    assert_ne!(Vector3i::new(1, 0, 0).pack(), Vector3i::new(0, 1, 0).pack());
}

#[test]
fn movesets() {
    let m = default_moveset();
    assert_eq!(m.len(), 4);
    assert_eq!(m[1].offset, Vector3i::new(-1, 0, 0));
    assert_eq!(m[3].offset, Vector3i::new(0, 0, -1));
    let c = moveset_2d_cardinal();
    assert_eq!(c[2], MoveAction { cost: 100, offset: Vector2i::new(0, 1) });
}

#[test]
fn voxel_space_is_open() {
    assert_eq!(VoxelSpace::new().material_cost(Vector3i::new(5, 6, 7)), 100);
}
