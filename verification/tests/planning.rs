use housekeeping::errors::AllocationError;
use housekeeping::housekeeper::{Housekeeper, Shift};
use housekeeping::planner::{
    adjust_work_unit_distribution, distribute_work_unit_quota, get_shift_distribution,
    get_total_work_units, increase_work_units, reduce_work_units,
};
use housekeeping::room::{Room, RoomType};

fn crew(shifts: &[Shift]) -> Vec<Housekeeper> {
    let mut hks = Vec::new();
    for (i, s) in shifts.iter().enumerate() {
        hks.push(Housekeeper::new(*s, format!("hk{}", i), '1'));
    }
    hks
}

fn reference_rooms() -> Vec<Room> {
    // 1 Single, 13 Double, 3 Triple, 2 Quad: total workload 44.
    let mut rooms = vec![Room::new(104, RoomType::Single)];
    for id in [102u16, 105, 206, 207, 208, 209, 210, 211, 212, 213, 214, 319, 320] {
        rooms.push(Room::new(id, RoomType::Double));
    }
    for id in [101u16, 317, 321] {
        rooms.push(Room::new(id, RoomType::Triple));
    }
    rooms.push(Room::new(318, RoomType::Quad));
    rooms.push(Room::new(424, RoomType::Quad));
    rooms
}

#[test]
fn total_work_units_of_reference_inventory() {
    let rooms = reference_rooms();
    assert_eq!(get_total_work_units(&rooms), 44);
}

#[test]
fn total_work_units_of_empty_inventory() {
    let rooms: Vec<Room> = Vec::new();
    assert_eq!(get_total_work_units(&rooms), 0);
}

#[test]
fn shift_distribution_counts_full_time() {
    let hks = crew(&[Shift::PartTime, Shift::PartTime, Shift::FullTime, Shift::FullTime,
        Shift::FullTime]);
    assert_eq!(get_shift_distribution(&hks), (3, 2));
}

#[test]
fn shift_distribution_of_empty_crew() {
    let hks: Vec<Housekeeper> = Vec::new();
    assert_eq!(get_shift_distribution(&hks), (0, 0));
}

#[test]
fn reference_quota_is_front_loaded_to_total() {
    // divider = round(2 + 1.6 * 3) = 7, base = round(44 / 7) = 6,
    // full-time = round(6 * 1.6) = 10; raw [6, 6, 10, 10, 10] = 42, so the
    // two-unit deficit goes to the first two positions.
    let rooms = reference_rooms();
    let hks = crew(&[Shift::PartTime, Shift::PartTime, Shift::FullTime, Shift::FullTime,
        Shift::FullTime]);
    let quota = distribute_work_unit_quota(&rooms, &hks).unwrap();
    assert_eq!(quota, vec![7, 7, 10, 10, 10]);
    assert_eq!(quota.iter().map(|q| *q as u32).sum::<u32>(), 44);
}

#[test]
fn quota_sums_to_total_for_part_time_crew() {
    // 1 Single + 18 Double = 37 work units over three part-timers:
    // base share 12 leaves a one-unit deficit, added at the front.
    let mut rooms = vec![Room::new(101, RoomType::Single)];
    for i in 0..18u16 {
        rooms.push(Room::new(200 + i, RoomType::Double));
    }
    let hks = crew(&[Shift::PartTime, Shift::PartTime, Shift::PartTime]);
    let quota = distribute_work_unit_quota(&rooms, &hks).unwrap();
    assert_eq!(quota, vec![13, 12, 12]);
}

#[test]
fn empty_crew_is_invalid() {
    let rooms = reference_rooms();
    let hks: Vec<Housekeeper> = Vec::new();
    assert_eq!(
        distribute_work_unit_quota(&rooms, &hks),
        Err(AllocationError::InvalidCrewComposition)
    );
}

#[test]
fn increase_deals_from_the_front() {
    let mut dist: Vec<u8> = vec![5, 5, 5];
    increase_work_units(&mut dist, 17, 15);
    assert_eq!(dist, vec![6, 6, 5]);
}

#[test]
fn increase_wraps_around_the_crew() {
    let mut dist: Vec<u8> = vec![1, 1];
    increase_work_units(&mut dist, 7, 2);
    assert_eq!(dist, vec![4, 3]);
}

#[test]
fn reduce_deals_from_the_back() {
    let mut dist: Vec<u8> = vec![5, 5, 5];
    let r = reduce_work_units(&mut dist, 13, 15);
    assert_eq!(r, Ok(()));
    assert_eq!(dist, vec![5, 4, 4]);
}

#[test]
fn reduce_refuses_an_exhausted_entry() {
    let mut dist: Vec<u8> = vec![0, 3];
    let r = reduce_work_units(&mut dist, 1, 3);
    assert_eq!(r, Err(AllocationError::QuotaUnderflow));
}

#[test]
fn adjust_reduces_overshoot_from_the_back() {
    let dist: Vec<u8> = vec![19, 19];
    let adjusted = adjust_work_unit_distribution(dist, 37).unwrap();
    assert_eq!(adjusted, vec![19, 18]);
}

#[test]
fn adjust_keeps_an_exact_distribution() {
    let dist: Vec<u8> = vec![4, 4, 2];
    let adjusted = adjust_work_unit_distribution(dist, 10).unwrap();
    assert_eq!(adjusted, vec![4, 4, 2]);
}
