//! Schema field queries and the dtype spellings.

use oxen::data_type::DataType;
use oxen::schema::Field;
use oxen::schema::Schema;

fn field(name: &str, dtype: &str) -> Field {
    Field { name: String::from(name), dtype: String::from(dtype) }
}

#[test]
fn test_dtype_string_round_trip() {
    assert_eq!(DataType::from_string("bool"), DataType::Boolean);
    assert_eq!(DataType::from_string("i64"), DataType::Int64);
    assert_eq!(DataType::from_string("int"), DataType::Int32);
    assert_eq!(DataType::from_string("float"), DataType::Float32);
    assert_eq!(DataType::from_string("nonsense"), DataType::Unknown);
    assert_eq!(DataType::Unknown.as_str(), "?");
    assert_eq!(DataType::from_string(DataType::Date.as_str()), DataType::Date);
    assert_eq!(DataType::from_string(DataType::UInt8.as_str()), DataType::UInt8);
}

#[test]
fn test_dtype_sql_round_trip() {
    assert_eq!(DataType::Int64.to_sql(), "BIGINT");
    assert_eq!(DataType::from_sql("BIGINT"), DataType::Int64);
    assert_eq!(DataType::from_sql("UUID"), DataType::String);
    assert_eq!(
        DataType::from_sql("VARCHAR[]"),
        DataType::List(Box::new(DataType::String)),
    );
    assert_eq!(DataType::List(Box::new(DataType::Time)).to_sql(), "TIME[]");
    assert_eq!(
        DataType::from_sql(DataType::List(Box::new(DataType::Float64)).to_sql()),
        DataType::List(Box::new(DataType::Float64)),
    );
}

#[test]
fn test_schema_hash_depends_on_fields_alone() {
    let a = Schema::new("bounding_box", vec![field("file", "str"), field("x", "i64")]);
    let b = Schema::from_fields(vec![field("file", "str"), field("x", "i64")]);
    // Same fields, same hash, regardless of the schema's name.
    assert_eq!(a.hash, b.hash);
    let c = Schema::from_fields(vec![field("file", "str"), field("x", "f64")]);
    assert_ne!(a.hash, c.hash);
}

#[test]
fn test_schema_field_queries() {
    let s = Schema::new(
        "bounding_box",
        vec![field("file", "str"), field("x", "i64"), field("y", "i64")],
    );
    assert!(s.has_field(&field("x", "i64")));
    assert!(!s.has_field(&field("x", "f64")));
    assert!(s.has_field_name("y"));
    assert!(!s.has_field_name("z"));
    assert_eq!(s.get_field("x").unwrap().dtype, "i64");
    assert!(s.get_field("w").is_none());
    assert_eq!(s.fields_names(), vec!["file", "x", "y"]);
    assert_eq!(s.fields_to_csv(), "file,x,y");
}

#[test]
fn test_schema_added_and_removed_fields() {
    let committed = Schema::from_fields(vec![field("file", "str"), field("x", "i64")]);
    let current = Schema::from_fields(vec![field("file", "str"), field("label", "str")]);

    let added = current.added_fields(&committed);
    assert_eq!(added.len(), 1);
    assert_eq!(added[0].name, "label");

    let removed = current.removed_fields(&committed);
    assert_eq!(removed.len(), 1);
    assert_eq!(removed[0].name, "x");
}

#[test]
fn test_schema_hash_separates_field_boundaries() {
    // Without separators these two field lists would concatenate to the
    // same characters; a differing field list must force a new hash.
    let a = vec![Field { name: String::from("ab"), dtype: String::from("c") }];
    let b = vec![Field { name: String::from("a"), dtype: String::from("bc") }];
    assert_ne!(Schema::hash_fields(&a), Schema::hash_fields(&b));
}

#[test]
fn test_schema_store_round_trip() {
    let f = |n: &str, d: &str| Field { name: String::from(n), dtype: String::from(d) };
    let mut store: Vec<oxen::schema::SchemaRecord> = Vec::new();
    let h = oxen::schema::put_schema(&mut store, vec![f("id", "i64"), f("name", "str")])
        .unwrap();
    let back = oxen::schema::get_schema(&store, &h).unwrap();
    assert_eq!(back.len(), 2);
    assert_eq!(back[0].name, "id");
    assert_eq!(back[1].dtype, "str");

    // Re-storing the same list is a no-op on the store.
    let h2 = oxen::schema::put_schema(&mut store, vec![f("id", "i64"), f("name", "str")])
        .unwrap();
    assert_eq!(h, h2);
    assert_eq!(store.len(), 1);

    // A different list gets its own key; unknown keys miss.
    let h3 = oxen::schema::put_schema(&mut store, vec![f("id", "i64")]).unwrap();
    assert_ne!(h, h3);
    assert!(oxen::schema::get_schema(&store, "not-a-hash").is_none());
}
