use orchitecture::command::{
    eq_ignore_case, parse_facing, parse_index, parse_int, parse_ivec3, parse_slot, parse_uniform_resource,
};
use orchitecture::resource::UniformResource;
use orchitecture::sparse3d::{IVec3, Slot};

#[test]
fn coordinates_read_from_three_tokens() {
    assert_eq!(parse_ivec3(&["100", "0", "-7"]), Ok(IVec3::new(100, 0, -7)));
    assert_eq!(parse_ivec3(&["+3", "x", "y"]), Err("not an integer: x".to_string()));
    assert_eq!(parse_ivec3(&["1", "2", "99999999999"]), Err("not an integer: 99999999999".to_string()));
}

#[test]
fn integers_read_like_the_standard_parser() {
    assert_eq!(parse_int("-2147483648"), Ok(i32::MIN));
    assert_eq!(parse_int("2147483648"), Err("not an integer: 2147483648".to_string()));
    assert_eq!(parse_int(""), Err("not an integer: ".to_string()));
    assert_eq!(parse_index("+12"), Ok(12));
    assert_eq!(parse_index("-1"), Err("not an integer: -1".to_string()));
    assert_eq!(parse_index("1e3"), Err("not an integer: 1e3".to_string()));
}

#[test]
fn slots_are_named_in_any_case() {
    assert_eq!(parse_slot("room"), Ok(Slot::Room));
    assert_eq!(parse_slot("FLOOR"), Ok(Slot::Floor));
    assert_eq!(parse_slot("XWall"), Ok(Slot::XLoWall));
    assert_eq!(parse_slot("zwall"), Ok(Slot::ZLoWall));
    assert_eq!(
        parse_slot("ceiling"),
        Err("unknown slot: ceiling (expected room|floor|xwall|zwall)".to_string())
    );
}

#[test]
fn facings_are_named_or_numbered() {
    assert_eq!(parse_facing("negx"), Ok(0));
    assert_eq!(parse_facing("1"), Ok(1));
    assert_eq!(parse_facing("PosX"), Ok(2));
    assert_eq!(parse_facing("3"), Ok(3));
    assert_eq!(
        parse_facing("4"),
        Err("unknown facing: 4 (expected negx|negz|posx|posz or 0-3)".to_string())
    );
}

#[test]
fn resources_are_named_by_their_variant() {
    assert_eq!(parse_uniform_resource("potato"), Ok(UniformResource::Potato));
    assert_eq!(parse_uniform_resource("FIELDSTONE"), Ok(UniformResource::Fieldstone));
    assert_eq!(parse_uniform_resource("planks"), Err("unknown resource: planks".to_string()));
}

#[test]
fn case_is_ignored_for_ascii_letters_only() {
    assert!(eq_ignore_case("MiXeD", "mixed"));
    assert!(!eq_ignore_case("mixed", "mixes"));
    assert!(!eq_ignore_case("é", "É"));
}
