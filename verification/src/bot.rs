use vstd::prelude::*;
use crate::vec2::{in_i32, trunc_div, Vec2i};

verus! {

/// Where the builder base of each player stands at the start of a game on a map of side
/// `map_size`: players 1 to 4 in the four corners, any other in the middle.
pub fn get_player_initial_builder_base_position(player_id: i32, map_size: i32, builder_base_size: i32) -> (r: Vec2i)
    requires
        2 <= player_id <= 4 ==> in_i32(map_size - builder_base_size) && in_i32(map_size - builder_base_size - 5),
    ensures
        r == match player_id {
            1 => Vec2i { x: 5, y: 5 },
            2 => Vec2i { x: (map_size - builder_base_size - 5) as i32, y: (map_size - builder_base_size - 5) as i32 },
            3 => Vec2i { x: (map_size - builder_base_size - 5) as i32, y: 5 },
            4 => Vec2i { x: 5, y: (map_size - builder_base_size - 5) as i32 },
            _ => Vec2i { x: trunc_div(map_size as int, 2) as i32, y: trunc_div(map_size as int, 2) as i32 },
        },
{
    match player_id {
        1 => Vec2i::both(5),
        2 => Vec2i::both(map_size - builder_base_size - 5),
        3 => Vec2i::new(map_size - builder_base_size - 5, 5),
        4 => Vec2i::new(5, map_size - builder_base_size - 5),
        _ => Vec2i::both(map_size / 2),
    }
}

} // verus!
