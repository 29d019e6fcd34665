use course_kudasai::json::{
    count_from_json, get_field, get_index, semester_from_info, CountError, Json, JsonNumber,
    SemesterError,
};

fn s(t: &str) -> Json {
    Json::Str(t.to_string())
}

fn count(v: Json) -> Result<i32, CountError> {
    count_from_json(&v)
}

#[test]
fn count_from_integer_numbers() {
    assert!(matches!(count(Json::Number(JsonNumber::PosInt(35))), Ok(35)));
    assert!(matches!(count(Json::Number(JsonNumber::NegInt(-3))), Ok(-3)));
    assert!(matches!(
        count(Json::Number(JsonNumber::PosInt(2147483648))),
        Err(CountError::InvalidNumber(JsonNumber::PosInt(2147483648)))
    ));
    assert!(matches!(
        count(Json::Number(JsonNumber::NegInt(-2147483649))),
        Err(CountError::InvalidNumber(JsonNumber::NegInt(-2147483649)))
    ));
    assert!(matches!(
        count(Json::Number(JsonNumber::PosInt(u64::MAX))),
        Err(CountError::InvalidNumber(JsonNumber::PosInt(u64::MAX)))
    ));
    match count(Json::Number(JsonNumber::Float("1.5".to_string()))) {
        Err(CountError::InvalidNumber(JsonNumber::Float(t))) => assert_eq!(t, "1.5"),
        _ => panic!("a float is no count"),
    }
}

#[test]
fn count_from_strings() {
    assert!(matches!(count(s("12")), Ok(12)));
    assert!(matches!(count(s("  35 ")), Ok(35)));
    assert!(matches!(count(s("")), Ok(0)));
    assert!(matches!(count(s("   ")), Ok(0)));
    assert!(matches!(count(s("-4")), Ok(-4)));
    match count(s("  1x ")) {
        Err(CountError::InvalidNumberString(t)) => assert_eq!(t, "1x"),
        _ => panic!("not a number"),
    }
    match count(s("99999999999")) {
        Err(CountError::InvalidNumberString(t)) => assert_eq!(t, "99999999999"),
        _ => panic!("out of range"),
    }
}

#[test]
fn count_from_null_and_others() {
    assert!(matches!(count(Json::Null), Ok(0)));
    assert!(matches!(count(Json::Bool(true)), Err(CountError::Unexpected)));
    assert!(matches!(count(Json::Array(vec![])), Err(CountError::Unexpected)));
    assert!(matches!(count(Json::Object(vec![])), Err(CountError::Unexpected)));
}

#[test]
fn count_reads_number_and_text_alike() {
    for n in [0i32, 7, -12, i32::MAX, i32::MIN] {
        let num = if n >= 0 {
            JsonNumber::PosInt(n as u64)
        } else {
            JsonNumber::NegInt(n as i64)
        };
        let a = count(Json::Number(num)).ok();
        let b = count(s(&format!(" {n}\n"))).ok();
        assert_eq!(a, Some(n));
        assert_eq!(b, Some(n));
    }
}

fn info(row: Json) -> Json {
    Json::Array(vec![row, Json::Null])
}

fn row(value: Json) -> Json {
    Json::Object(vec![("Other".to_string(), s("x")), ("Semester".to_string(), value)])
}

#[test]
fn semester_from_string_or_integer() {
    assert_eq!(semester_from_info(&info(row(s("1141")))).ok(), Some("1141".to_string()));
    assert_eq!(
        semester_from_info(&info(row(Json::Number(JsonNumber::PosInt(1132))))).ok(),
        Some("1132".to_string())
    );
    assert_eq!(
        semester_from_info(&info(row(Json::Number(JsonNumber::NegInt(-5))))).ok(),
        Some("-5".to_string())
    );
}

#[test]
fn semester_missing_or_empty() {
    let empty = |v: &Json| matches!(semester_from_info(v), Err(SemesterError::Empty));
    assert!(empty(&info(row(s("")))));
    assert!(empty(&info(row(Json::Null))));
    assert!(empty(&info(row(Json::Number(JsonNumber::Float("1.0".to_string()))))));
    assert!(empty(&info(row(Json::Number(JsonNumber::PosInt(u64::MAX))))));
    assert!(empty(&info(Json::Object(vec![("semester".to_string(), s("1141"))]))));
    assert!(empty(&Json::Array(vec![])));
    assert!(empty(&row(s("1141"))));
    assert!(empty(&info(Json::Array(vec![s("1141")]))));
}

#[test]
fn field_and_index_lookup() {
    let obj = Json::Object(vec![("a".to_string(), s("1")), ("a".to_string(), s("2"))]);
    assert!(matches!(get_field(&obj, "a"), Some(Json::Str(t)) if t == "1"));
    assert!(get_field(&obj, "b").is_none());
    assert!(get_index(&obj, 0).is_none());
    let arr = Json::Array(vec![s("x")]);
    assert!(matches!(get_index(&arr, 0), Some(Json::Str(t)) if t == "x"));
    assert!(get_index(&arr, 1).is_none());
    assert!(get_field(&arr, "x").is_none());
}
