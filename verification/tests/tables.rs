use animstore::table::DataTypeStorage;
use animstore::value::DataType;

#[test]
fn rows_always_match_the_schema() {
    let mut table = DataTypeStorage::new();
    table.add_field(String::from("a"), DataType::U32);
    table.gen_new(1);
    assert_eq!(table.get(1).unwrap().len(), table.get_desc().len());
    table.add_field(String::from("b"), DataType::Bool);
    assert_eq!(table.get(1).unwrap().len(), table.get_desc().len());
    table.add_field(String::from("c"), DataType::OwnedString);
    table.gen_new(2);
    assert_eq!(table.get(1).unwrap().len(), 3);
    assert_eq!(table.get(2).unwrap().len(), 3);
    table.remove_field(1);
    assert_eq!(table.get(1).unwrap().len(), table.get_desc().len());
    assert_eq!(table.get(2).unwrap().len(), 2);
    table.remove_field_with_name("a");
    assert_eq!(table.get(1).unwrap().len(), 1);
    assert_eq!(table.get(2).unwrap().len(), table.get_desc().len());
}

#[test]
fn field_removal_by_name() {
    let mut table = DataTypeStorage::new();
    table.add_field(String::from("alpha"), DataType::F32);
    table.add_field(String::from("beta"), DataType::F32);
    table.gen_new(1);
    table.remove_field_with_name("alpha");
    let row = table.get(1).unwrap();
    assert_eq!(row.len(), 1);
    assert!(!table.has_field_with_name("alpha"));
    assert!(table.has_field_with_name("beta"));
    assert_eq!(table.get_desc()[0].name, "beta");
}

#[test]
fn removing_a_missing_field_is_a_silent_no_op() {
    let mut table = DataTypeStorage::new();
    table.add_field(String::from("alpha"), DataType::I32);
    table.gen_new(3);
    table.remove_field_with_name("gamma");
    table.remove_field(7);
    assert!(table.has_field_with_name("alpha"));
    assert_eq!(table.get(3).unwrap().len(), 1);
}

#[test]
fn create_row_resets_payloads() {
    let mut table = DataTypeStorage::new();
    table.add_field(String::from("n"), DataType::U32);
    table.gen_new(1);
    assert_eq!(table.set_value_at(1, 0, "9"), Some(Ok(())));
    assert_eq!(table.get(1).unwrap()[0].display(), "9");
    table.gen_new(1);
    assert_eq!(table.get(1).unwrap()[0].display(), "0");
}

#[test]
fn set_value_at_outcomes() {
    let mut table = DataTypeStorage::new();
    table.add_field(String::from("n"), DataType::U32);
    table.gen_new(1);
    // normal misses
    assert_eq!(table.set_value_at(2, 0, "1"), None);
    assert_eq!(table.set_value_at(1, 1, "1"), None);
    // a failed parse leaves the payload unchanged
    assert!(table.set_value_at(1, 0, "nope").unwrap().is_err());
    assert_eq!(table.get(1).unwrap()[0].display(), "0");
    assert!(table.set_value_at(1, 0, "31").unwrap().is_ok());
    assert_eq!(table.get(1).unwrap()[0].display(), "31");
}

#[test]
fn duplicate_field_names_are_admitted() {
    let mut table = DataTypeStorage::new();
    table.add_field(String::from("x"), DataType::U32);
    table.add_field(String::from("x"), DataType::Bool);
    assert_eq!(table.get_desc().len(), 2);
    table.gen_new(1);
    assert_eq!(table.get(1).unwrap().len(), 2);
    // removal by name takes the first
    table.remove_field_with_name("x");
    assert_eq!(table.get_desc().len(), 1);
    assert_eq!(table.get(1).unwrap()[0].display(), "false");
}

#[test]
fn get_with_desc_pairs_schema_and_row() {
    let mut table = DataTypeStorage::new();
    table.add_field(String::from("flag"), DataType::Bool);
    table.gen_new(4);
    let (desc, row) = table.get_with_desc(4);
    assert_eq!(desc.len(), 1);
    assert_eq!(row.unwrap().len(), 1);
    let (_, miss) = table.get_with_desc(5);
    assert!(miss.is_none());
}
