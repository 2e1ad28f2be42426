use animstore::frame::{AnimationData, Frame};
use animstore::shapes::{Cuboid, AABB};
use animstore::storage::DataStorage;
use animstore::value::DataType;

#[test]
fn end_to_end_register_fill_and_read() {
    let mut data = DataStorage::new();
    data.new_data_type(String::from("TestType"));
    assert!(data.add_field("TestType", String::from("alpha"), DataType::F32));
    assert!(data.add_field("TestType", String::from("beta"), DataType::F32));
    assert!(data.create_row("TestType", 1));
    assert!(data.set_value_at("TestType", 1, 0, "1.0").unwrap().is_ok());
    assert!(data.set_value_at("TestType", 1, 1, "2.0").unwrap().is_ok());
    let row = data.get("TestType", 1).unwrap();
    assert_eq!(row.len(), 2);
    assert_eq!(row[0].display(), "1.0");
    assert_eq!(row[1].display(), "2.0");
    assert_eq!(row[0].display().parse::<f32>().unwrap(), 1.0f32);
    assert_eq!(row[1].display().parse::<f32>().unwrap(), 2.0f32);
    assert!(data.get("TestType", 2).is_none());
    assert!(data.get("OtherType", 1).is_none());
}

#[test]
fn reregistering_a_name_replaces_the_table() {
    let mut data = DataStorage::new();
    data.new_data_type(String::from("T"));
    assert!(data.add_field("T", String::from("a"), DataType::U32));
    assert!(data.create_row("T", 0));
    data.new_data_type(String::from("T"));
    let table = data.get_storage("T").unwrap();
    assert_eq!(table.get_desc().len(), 0);
    assert!(table.get(0).is_none());
}

#[test]
fn adding_fields_to_a_missing_table_reports_it() {
    let mut data = DataStorage::new();
    assert!(!data.add_field("T", String::from("a"), DataType::U32));
    assert!(!data.create_row("T", 0));
    assert!(data.get_with_desc("T", 0).is_none());
}

#[test]
fn failed_allocation_leaks_no_key() {
    let mut anim: AnimationData<Cuboid<u32>> = AnimationData::new(30);
    // the table is not registered: nothing is allocated, nothing changes
    assert!(anim.generate_data("Hit").is_none());
    anim.new_data_type(String::from("Hit"));
    let (name, key) = anim.generate_data("Hit").unwrap();
    assert_eq!(name, "Hit");
    assert_eq!(key, 0);
}

#[test]
fn hitboxes_pair_bounds_with_records() {
    let mut anim: AnimationData<Cuboid<u32>> = AnimationData::new(30);
    anim.new_data_type(String::from("Hit"));
    anim.new_data_box("Hit", Cuboid::new(4, 2));
    assert_eq!(anim.data_box_count(), 1);
    assert!(anim.get_row("Hit", 0).is_some());
    // an unregistered table admits no hitbox
    anim.new_data_box("Other", Cuboid::new(1, 1));
    assert_eq!(anim.data_box_count(), 1);
}

#[test]
fn removing_a_hitbox_orphans_the_row_and_frees_the_key() {
    let mut anim: AnimationData<Cuboid<u32>> = AnimationData::new(30);
    anim.new_data_type(String::from("Hit"));
    anim.new_data_box("Hit", Cuboid::new(4, 2));
    assert_eq!(anim.data_box_count(), 1);
    anim.remove_data_box(0);
    assert_eq!(anim.data_box_count(), 0);
    // the row is still there, inert
    assert!(anim.get_row("Hit", 0).is_some());
    // and the key is available again
    let (_, key) = anim.generate_data("Hit").unwrap();
    assert_eq!(key, 0);
}

#[test]
fn each_table_name_has_its_own_allocator() {
    let mut anim: AnimationData<Cuboid<u32>> = AnimationData::new(30);
    anim.new_data_type(String::from("A"));
    anim.new_data_type(String::from("B"));
    assert_eq!(anim.generate_data("A").unwrap().1, 0);
    assert_eq!(anim.generate_data("A").unwrap().1, 1);
    assert_eq!(anim.generate_data("B").unwrap().1, 0);
}

#[test]
fn frames_hold_plain_data() {
    let frame = Frame {
        centre: [5, 6],
        rect: AABB { rect: Cuboid::new(3, 4), translation: [1, 2] },
        active_hitboxes: vec![0, 2],
    };
    assert_eq!(frame.centre, [5, 6]);
    assert_eq!(frame.rect.rect.width, 3);
    assert_eq!(frame.active_hitboxes.len(), 2);
}

#[test]
fn removing_an_out_of_range_hitbox_is_a_silent_no_op() {
    let mut anim: AnimationData<Cuboid<u32>> = AnimationData::new(30);
    anim.new_data_type(String::from("Hit"));
    anim.new_data_box("Hit", Cuboid::new(4, 2));
    anim.remove_data_box(5);
    assert_eq!(anim.data_box_count(), 1);
}
