use housekeeping::allocator::{
    arrange_rooms, assign_equally_if_less_than_six, get_room_count_by_type, get_room_of_type,
    get_single_room,
};
use housekeeping::errors::AllocationError;
use housekeeping::housekeeper::{Housekeeper, Shift};
use housekeeping::planner::distribute_work_unit_quota;
use housekeeping::room::{Room, RoomType};

fn reference_crew() -> Vec<Housekeeper> {
    vec![
        Housekeeper::new(Shift::PartTime, "Bob".to_string(), '1'),
        Housekeeper::new(Shift::PartTime, "Dave".to_string(), '1'),
        Housekeeper::new(Shift::FullTime, "Alice".to_string(), '2'),
        Housekeeper::new(Shift::FullTime, "Charlie".to_string(), '3'),
        Housekeeper::new(Shift::FullTime, "Eve".to_string(), '4'),
    ]
}

fn reference_rooms() -> Vec<Room> {
    // 1 Single, 13 Double, 3 Triple, 2 Quad: 19 rooms, total workload 44.
    let mut rooms = vec![Room::new(104, RoomType::Single)];
    for id in [102u16, 105, 206, 207, 208, 209, 210, 211, 212, 213, 214, 319, 320] {
        rooms.push(Room::new(id, RoomType::Double));
    }
    for id in [101u16, 317, 321] {
        rooms.push(Room::new(id, RoomType::Triple));
    }
    rooms.push(Room::new(318, RoomType::Quad));
    rooms.push(Room::new(424, RoomType::Quad));
    rooms
}

fn sorted_ids(rooms: &[Room]) -> Vec<u16> {
    let mut ids: Vec<u16> = rooms.iter().map(|r| r.id).collect();
    ids.sort();
    ids
}

#[test]
fn work_units_and_indices_are_fixed() {
    assert_eq!(RoomType::Single.get_work_units(), 1);
    assert_eq!(RoomType::Double.get_work_units(), 2);
    assert_eq!(RoomType::Triple.get_work_units(), 3);
    assert_eq!(RoomType::Quad.get_work_units(), 4);
    assert_eq!(RoomType::Single.get_index(), 0);
    assert_eq!(RoomType::Quad.get_index(), 3);
    assert_eq!(RoomType::get_value(1), Some(RoomType::Double));
    assert_eq!(RoomType::get_value(2), Some(RoomType::Triple));
    assert_eq!(RoomType::get_value(4), None);
}

#[test]
fn value_and_index_are_mutual_inverses() {
    for t in [RoomType::Single, RoomType::Double, RoomType::Triple, RoomType::Quad] {
        assert_eq!(RoomType::get_value(t.get_index()), Some(t));
    }
}

#[test]
fn room_counts_by_type() {
    let rooms = reference_rooms();
    let counts = get_room_count_by_type(&rooms);
    assert_eq!(counts, vec![13, 3, 2]);
}

#[test]
fn reference_inventory_terminates_and_partitions() {
    let rooms = reference_rooms();
    let crew = reference_crew();
    let quota = distribute_work_unit_quota(&rooms, &crew).unwrap();
    let input_ids = sorted_ids(&rooms);
    let arrangement = arrange_rooms(rooms, &crew, quota).unwrap();
    assert_eq!(arrangement.len(), 5);
    let total: usize = arrangement.iter().map(|l| l.len()).sum();
    assert_eq!(total, 19);
    let mut all: Vec<Room> = Vec::new();
    for list in &arrangement {
        all.extend(list.iter().copied());
    }
    assert_eq!(sorted_ids(&all), input_ids);
}

#[test]
fn single_room_goes_to_the_last_housekeeper() {
    let rooms = reference_rooms();
    let crew = reference_crew();
    let quota = distribute_work_unit_quota(&rooms, &crew).unwrap();
    let arrangement = arrange_rooms(rooms, &crew, quota).unwrap();
    assert!(arrangement[4].iter().any(|r| r.id == 104));
    for h in 0..4 {
        assert!(!arrangement[h].iter().any(|r| r.id == 104));
    }
}

#[test]
fn small_pool_is_dealt_round_robin() {
    // Three non-Single rooms: repeated swap_remove(0) yields 101, 303, 202,
    // dealt to the two housekeepers in turn, whatever the quotas say.
    let rooms = vec![
        Room::new(101, RoomType::Double),
        Room::new(202, RoomType::Double),
        Room::new(303, RoomType::Triple),
    ];
    let crew = vec![
        Housekeeper::new(Shift::PartTime, "Bob".to_string(), '1'),
        Housekeeper::new(Shift::FullTime, "Eve".to_string(), '2'),
    ];
    let quota: Vec<u8> = vec![3, 4];
    let arrangement = arrange_rooms(rooms, &crew, quota).unwrap();
    assert_eq!(
        arrangement[0].iter().map(|r| r.id).collect::<Vec<u16>>(),
        vec![101, 202]
    );
    assert_eq!(
        arrangement[1].iter().map(|r| r.id).collect::<Vec<u16>>(),
        vec![303]
    );
}

#[test]
fn small_pool_shortcut_ignores_quotas_directly() {
    let mut rooms = vec![
        Room::new(101, RoomType::Double),
        Room::new(202, RoomType::Double),
        Room::new(303, RoomType::Triple),
        Room::new(404, RoomType::Quad),
    ];
    let mut arrangement: Vec<Vec<Room>> = vec![Vec::new(), Vec::new(), Vec::new()];
    let quantity = get_room_count_by_type(&rooms);
    let mut bed_pool: u8 = 11;
    let r = assign_equally_if_less_than_six(&quantity, &mut bed_pool, 3, &mut rooms,
        &mut arrangement);
    assert_eq!(r, 0);
    assert_eq!(bed_pool, 0);
    assert!(rooms.is_empty());
    // Drain order of [101, 202, 303, 404] is 101, 404, 303, 202.
    assert_eq!(arrangement[0].iter().map(|r| r.id).collect::<Vec<u16>>(), vec![101, 202]);
    assert_eq!(arrangement[1].iter().map(|r| r.id).collect::<Vec<u16>>(), vec![404]);
    assert_eq!(arrangement[2].iter().map(|r| r.id).collect::<Vec<u16>>(), vec![303]);
}

#[test]
fn large_pool_is_left_to_the_heuristics() {
    let mut rooms = Vec::new();
    for i in 0..6u16 {
        rooms.push(Room::new(100 + i, RoomType::Double));
    }
    let mut arrangement: Vec<Vec<Room>> = vec![Vec::new(), Vec::new()];
    let quantity = get_room_count_by_type(&rooms);
    let mut bed_pool: u8 = 12;
    let r = assign_equally_if_less_than_six(&quantity, &mut bed_pool, 2, &mut rooms,
        &mut arrangement);
    assert_eq!(r, 12);
    assert_eq!(rooms.len(), 6);
    assert!(arrangement[0].is_empty() && arrangement[1].is_empty());
}

#[test]
fn floor_preference_picks_the_preferred_floor_first() {
    let mut rooms = vec![
        Room::new(201, RoomType::Double),
        Room::new(301, RoomType::Double),
        Room::new(305, RoomType::Triple),
    ];
    let crew = vec![Housekeeper::new(Shift::FullTime, "Charlie".to_string(), '3')];
    let picked = get_room_of_type(&mut rooms, RoomType::Double, 0, &crew).unwrap();
    assert_eq!(picked.id, 301);
    assert_eq!(rooms.len(), 2);
}

#[test]
fn floor_preference_falls_back_to_any_floor() {
    let mut rooms = vec![
        Room::new(201, RoomType::Double),
        Room::new(301, RoomType::Double),
    ];
    let crew = vec![Housekeeper::new(Shift::FullTime, "Eve".to_string(), '9')];
    let picked = get_room_of_type(&mut rooms, RoomType::Double, 0, &crew).unwrap();
    assert_eq!(picked.id, 201);
    let missing = get_room_of_type(&mut rooms, RoomType::Quad, 0, &crew);
    assert!(missing.is_none());
}

#[test]
fn first_single_room_is_taken() {
    let mut rooms = vec![
        Room::new(201, RoomType::Double),
        Room::new(104, RoomType::Single),
        Room::new(108, RoomType::Single),
    ];
    let picked = get_single_room(&mut rooms).unwrap();
    assert_eq!(picked.id, 104);
    assert_eq!(rooms.len(), 2);
    let none_left = get_single_room(&mut vec![Room::new(201, RoomType::Double)]);
    assert!(none_left.is_none());
}

#[test]
fn too_many_singles_underflow_the_last_quota() {
    let rooms = vec![
        Room::new(101, RoomType::Single),
        Room::new(102, RoomType::Single),
    ];
    let crew = vec![
        Housekeeper::new(Shift::PartTime, "Bob".to_string(), '1'),
        Housekeeper::new(Shift::FullTime, "Eve".to_string(), '1'),
    ];
    let quota: Vec<u8> = vec![2, 0];
    assert_eq!(
        arrange_rooms(rooms, &crew, quota),
        Err(AllocationError::QuotaUnderflow)
    );
}

#[test]
fn unfittable_residual_stalls_loudly() {
    // Six Quads and quotas no rule can serve: no rule fires, and the
    // allocator reports the stall instead of looping forever.
    let mut rooms = Vec::new();
    for i in 0..6u16 {
        rooms.push(Room::new(101 + 100 * i, RoomType::Quad));
    }
    let crew = vec![
        Housekeeper::new(Shift::PartTime, "Bob".to_string(), '1'),
        Housekeeper::new(Shift::FullTime, "Eve".to_string(), '2'),
    ];
    let quota: Vec<u8> = vec![2, 22];
    assert_eq!(
        arrange_rooms(rooms, &crew, quota),
        Err(AllocationError::StalledAllocation)
    );
}

#[test]
fn quotas_are_consumed_by_the_rules() {
    // Six Doubles over two part-timers: the even-split and exact-fit rules
    // drain the pool, and every room is assigned exactly once.
    let mut rooms = Vec::new();
    for i in 0..6u16 {
        rooms.push(Room::new(201 + i, RoomType::Double));
    }
    let crew = vec![
        Housekeeper::new(Shift::PartTime, "Bob".to_string(), '9'),
        Housekeeper::new(Shift::PartTime, "Dave".to_string(), '9'),
    ];
    let quota = distribute_work_unit_quota(&rooms, &crew).unwrap();
    assert_eq!(quota, vec![6, 6]);
    let input_ids = sorted_ids(&rooms);
    let arrangement = arrange_rooms(rooms, &crew, quota).unwrap();
    assert_eq!(arrangement.len(), 2);
    assert_eq!(arrangement[0].len(), 3);
    assert_eq!(arrangement[1].len(), 3);
    let mut all: Vec<Room> = Vec::new();
    for list in &arrangement {
        all.extend(list.iter().copied());
    }
    assert_eq!(sorted_ids(&all), input_ids);
}

#[test]
fn equal_inputs_give_equal_arrangements() {
    // The allocator reads nothing but its arguments: two runs on equal
    // inputs return the same lists in the same order.
    let crew = reference_crew();
    let quota_a = distribute_work_unit_quota(&reference_rooms(), &crew).unwrap();
    let quota_b = distribute_work_unit_quota(&reference_rooms(), &crew).unwrap();
    assert_eq!(quota_a, quota_b);
    let run_a = arrange_rooms(reference_rooms(), &crew, quota_a).unwrap();
    let run_b = arrange_rooms(reference_rooms(), &crew, quota_b).unwrap();
    assert_eq!(run_a, run_b);
}
