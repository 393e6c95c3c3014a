use moonrust::interpreter::LuaTable;
use moonrust::interpreter::LuaVal;
use moonrust::interpreter::LuaValue;
use moonrust::interpreter::TableKey;

fn integer<'a>(i: i64) -> LuaValue<'a> {
    LuaValue::new(LuaVal::LuaNum(i.to_be_bytes(), false))
}

fn float<'a>(f: f64) -> LuaValue<'a> {
    LuaValue::new(LuaVal::LuaNum(f.to_be_bytes(), true))
}

fn text<'a>(s: &str) -> LuaValue<'a> {
    LuaValue::new(LuaVal::LuaString(s.to_string()))
}

fn shown(v: Option<LuaValue>) -> Option<String> {
    v.map(|v| v.to_string())
}

#[test]
fn accepts_calculate_border() {
    let mut table = LuaTable::new();
    table.insert_int(1, integer(23));
    table.insert_int(2, integer(5));
    table.insert_int(3, integer(999));
    let result = 3;
    assert_eq!(table.calculate_border(), result);
}

#[test]
fn accepts_calculate_border2() {
    let mut table2 = LuaTable::new();
    table2.insert_int(1, integer(23));
    table2.insert_int(2, LuaValue::new(LuaVal::LuaNil));
    table2.insert_int(3, integer(999));
    let result2 = 1;
    assert_eq!(table2.calculate_border(), result2);
}

#[test]
fn accepts_calculate_border3() {
    let table3 = LuaTable::new();
    let result3 = 0;
    assert_eq!(table3.calculate_border(), result3);
}

#[test]
fn border_stops_at_absent_key() {
    let mut table = LuaTable::new();
    table.insert_int(1, integer(1));
    table.insert_int(2, integer(2));
    table.insert_int(4, integer(4));
    table.insert_int(5, integer(5));
    assert_eq!(table.calculate_border(), 2);
}

#[test]
fn border_of_single_entry_is_one() {
    let mut table = LuaTable::new();
    table.insert_int(1, integer(7));
    assert_eq!(table.calculate_border(), 1);
}

#[test]
fn border_is_the_leading_run_not_the_entry_count() {
    let mut table = LuaTable::new();
    table.insert_int(1, integer(1));
    table.insert_int(2, integer(2));
    table.insert_ident("name".to_string(), integer(3));
    assert_eq!(table.len(), 3);
    assert_eq!(table.calculate_border(), 2);
    let mut sparse = LuaTable::new();
    sparse.insert_int(1, LuaValue::new(LuaVal::LuaBool(true)));
    sparse.insert_int(2, LuaValue::new(LuaVal::LuaBool(true)));
    sparse.insert_int(5, LuaValue::new(LuaVal::LuaBool(true)));
    assert_eq!(sparse.len(), 3);
    assert_eq!(sparse.calculate_border(), 2);
}

#[test]
fn border_stops_at_a_stored_nil() {
    let mut table = LuaTable::new();
    table.insert_int(1, LuaValue::new(LuaVal::LuaNil));
    assert_eq!(table.len(), 1);
    assert_eq!(table.calculate_border(), 0);
    let mut last = LuaTable::new();
    last.insert_int(1, integer(1));
    last.insert_int(2, integer(2));
    last.insert_int(3, LuaValue::new(LuaVal::LuaNil));
    assert_eq!(last.calculate_border(), 2);
    last.insert_int(3, integer(3));
    assert_eq!(last.calculate_border(), 3);
}

#[test]
fn border_does_not_go_past_the_entry_count() {
    let mut table = LuaTable::new();
    table.insert_int(1, integer(1));
    table.insert_int(2, integer(2));
    table.insert_int(3, integer(3));
    assert_eq!(table.calculate_border(), 3);
    table.insert(float(4.0), integer(4)).unwrap();
    assert_eq!(table.calculate_border(), 4);
    table.insert(float(5.5), integer(5)).unwrap();
    assert_eq!(table.calculate_border(), 4);
}

#[test]
fn border_is_zero_when_first_key_is_missing() {
    let mut table = LuaTable::new();
    table.insert_int(2, integer(2));
    table.insert_int(3, integer(3));
    assert_eq!(table.calculate_border(), 0);
}

#[test]
fn whole_float_key_and_integer_key_share_a_slot() {
    let mut table = LuaTable::new();
    assert!(table.insert(integer(1), text("a")).is_ok());
    assert_eq!(table.len(), 1);
    assert_eq!(shown(table.get(TableKey::Number(1i64.to_be_bytes()))), Some("a".to_string()));
    assert!(table.insert(float(1.0), text("b")).is_ok());
    assert_eq!(table.len(), 1);
    assert_eq!(shown(table.get(TableKey::Number(1i64.to_be_bytes()))), Some("b".to_string()));
    assert!(table.insert(float(-3.0), text("c")).is_ok());
    assert_eq!(shown(table.get(TableKey::Number((-3i64).to_be_bytes()))), Some("c".to_string()));
    assert!(table.insert(float(-0.0), text("z")).is_ok());
    assert_eq!(shown(table.get(TableKey::Number(0i64.to_be_bytes()))), Some("z".to_string()));
}

#[test]
fn fractional_float_key_keeps_its_own_slot() {
    let mut table = LuaTable::new();
    assert!(table.insert(float(1.5), text("x")).is_ok());
    assert!(table.get(TableKey::Number(1i64.to_be_bytes())).is_none());
    assert_eq!(shown(table.get(TableKey::Number(1.5f64.to_be_bytes()))), Some("x".to_string()));
    assert!(table.insert(float(f64::INFINITY), text("inf")).is_ok());
    assert_eq!(
        shown(table.get(TableKey::Number(f64::INFINITY.to_be_bytes()))),
        Some("inf".to_string())
    );
}

#[test]
fn huge_whole_float_key_saturates() {
    let mut table = LuaTable::new();
    assert!(table.insert(float(1e300), text("big")).is_ok());
    assert_eq!(
        shown(table.get(TableKey::Number(i64::MAX.to_be_bytes()))),
        Some("big".to_string())
    );
}

#[test]
fn insert_overwrites() {
    let mut table = LuaTable::new();
    assert!(table.insert(text("k"), integer(1)).is_ok());
    assert!(table.insert(text("k"), integer(2)).is_ok());
    assert_eq!(table.len(), 1);
    assert_eq!(shown(table.get(TableKey::String("k".to_string()))), Some("2".to_string()));
    assert!(table.get(TableKey::String("other".to_string())).is_none());
}

#[test]
fn stored_nil_is_not_absent() {
    let mut table = LuaTable::new();
    table.insert_ident("n".to_string(), LuaValue::new(LuaVal::LuaNil));
    let got = table.get(TableKey::String("n".to_string()));
    assert!(got.is_some());
    assert!(got.unwrap().is_nil());
}

#[test]
fn insert_refuses_other_keys() {
    let mut table = LuaTable::new();
    let e = table.insert(LuaValue::new(LuaVal::LuaNil), integer(1)).unwrap_err();
    assert_eq!(e.0, "Cannot add 'nil' as key into a table");
    let e = table.insert(LuaValue::new(LuaVal::LuaBool(true)), integer(1)).unwrap_err();
    assert_eq!(e.0, "Cannot add 'true' as key into a table");
    let e = table.insert(LuaValue::new(LuaVal::LuaTable(7)), integer(1)).unwrap_err();
    assert_eq!(e.0, "Cannot add 'table: 7' as key into a table");
    let e = table.insert(LuaValue::new(LuaVal::Print), integer(1)).unwrap_err();
    assert_eq!(e.0, "Cannot add 'print' as key into a table");
    assert_eq!(table.len(), 0);
}

#[test]
fn default_table_is_empty() {
    let table: LuaTable = Default::default();
    assert_eq!(table.len(), 0);
    assert_eq!(table.calculate_border(), 0);
}

#[test]
fn cloned_table_has_the_same_entries() {
    let mut table = LuaTable::new();
    table.insert_int(1, integer(10));
    table.insert_ident("k".to_string(), text("v"));
    let mut copy = table.clone();
    assert_eq!(copy, table);
    copy.insert_int(2, integer(20));
    assert_eq!(table.len(), 2);
    assert_eq!(copy.len(), 3);
    assert_eq!(shown(copy.get(TableKey::Number(1i64.to_be_bytes()))), Some("10".to_string()));
}

#[test]
fn many_numeric_keys() {
    let mut table = LuaTable::new();
    let mut i = 1;
    while i <= 2000 {
        table.insert_int(i, integer(i * 2));
        i += 1;
    }
    assert_eq!(table.calculate_border(), 2000);
    table.insert_int(1000, LuaValue::new(LuaVal::LuaNil));
    assert_eq!(table.len(), 2000);
    assert_eq!(table.calculate_border(), 999);
    assert_eq!(shown(table.get(TableKey::Number(1500i64.to_be_bytes()))), Some("3000".to_string()));
}
