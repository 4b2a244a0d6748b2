use orchitecture::road::{is_in_road_forbidden_zone, road_forbidden_height, ROAD_WIDTH};
use orchitecture::sparse3d::{IVec3, Slot, SlotCoord};

fn loc(x: i32, y: i32, z: i32, slot: Slot) -> SlotCoord {
    SlotCoord { cube: IVec3::new(x, y, z), slot }
}

#[test]
fn road_forbidden_zone() {
    assert!(road_forbidden_height(0, -1) == 0);
    assert!(road_forbidden_height(-5, 10) == 0);

    assert!(road_forbidden_height(0, 0) == 3);
    assert!(road_forbidden_height(5, ROAD_WIDTH - 1) == 3);

    assert!(road_forbidden_height(0, 1) == 4);
    assert!(road_forbidden_height(0, ROAD_WIDTH - 2) == 4);

    assert!(road_forbidden_height(0, ROAD_WIDTH) == 3);
    assert!(road_forbidden_height(ROAD_WIDTH - 1, ROAD_WIDTH + 2) == 3);

    assert!(road_forbidden_height(1, ROAD_WIDTH) == 4);
    assert!(road_forbidden_height(ROAD_WIDTH - 2, ROAD_WIDTH + 5) == 4);

    assert!(is_in_road_forbidden_zone(loc(0, 0, 1, Slot::Room)));
    assert!(is_in_road_forbidden_zone(loc(0, 0, 1, Slot::Floor)));

    assert!(!is_in_road_forbidden_zone(loc(0, 4, 1, Slot::Room)));
    assert!(!is_in_road_forbidden_zone(loc(0, 4, 1, Slot::Floor)));

    assert!(!is_in_road_forbidden_zone(loc(0, 0, -1, Slot::Room)));

    assert!(!is_in_road_forbidden_zone(loc(0, 0, 0, Slot::ZLoWall)));

    assert!(is_in_road_forbidden_zone(loc(0, 0, 2, Slot::ZLoWall)));

    assert!(!is_in_road_forbidden_zone(loc(0, 4, 1, Slot::ZLoWall)));

    assert!(!is_in_road_forbidden_zone(loc(0, 0, ROAD_WIDTH + 1, Slot::XLoWall)));

    assert!(is_in_road_forbidden_zone(loc(2, 0, ROAD_WIDTH + 1, Slot::XLoWall)));
}

#[test]
fn heights_stay_within_the_road_ceiling() {
    for x in -3..10 {
        for z in -3..12 {
            let h = road_forbidden_height(x, z);
            assert!((0..=4).contains(&h));
            if z < 0 {
                assert_eq!(h, 0);
            }
        }
    }
}
