use json_pointer_simd::IndexError;
use json_pointer_simd::JsonPointer;
use json_pointer_simd::JsonPointerTarget;
use json_pointer_simd::JsonValue;

fn key(k: &str, v: JsonValue) -> (String, JsonValue) {
    (k.to_string(), v)
}

fn s(v: &str) -> JsonValue {
    JsonValue::Str(v.to_string())
}

/// The document of RFC 6901, sections 5 and 6.
fn doc() -> JsonValue {
    JsonValue::Object(vec![
        key("foo", JsonValue::Array(vec![s("bar"), s("baz")])),
        key("", JsonValue::Num(0)),
        key("a/b", JsonValue::Num(1)),
        key("c%d", JsonValue::Num(2)),
        key("e^f", JsonValue::Num(3)),
        key("g|h", JsonValue::Num(4)),
        key("i\\j", JsonValue::Num(5)),
        key("k\"l", JsonValue::Num(6)),
        key(" ", JsonValue::Num(7)),
        key("m~n", JsonValue::Num(8)),
    ])
}

fn deep(v: &JsonValue) -> JsonValue {
    match v {
        JsonValue::Null => JsonValue::Null,
        JsonValue::Bool(b) => JsonValue::Bool(*b),
        JsonValue::Num(n) => JsonValue::Num(*n),
        JsonValue::Str(t) => JsonValue::Str(t.clone()),
        JsonValue::Array(a) => JsonValue::Array(a.iter().map(deep).collect()),
        JsonValue::Object(o) => JsonValue::Object(o.iter().map(|(k, v)| (k.clone(), deep(v))).collect()),
    }
}

fn get(ptr: &str) -> Result<JsonValue, IndexError> {
    let d = doc();
    let p = JsonPointer::parse(ptr).unwrap();
    d.get(&p).map(deep)
}

#[test]
fn rfc_section_5() {
    assert_eq!(get(""), Ok(doc()));
    assert_eq!(get("/foo"), Ok(JsonValue::Array(vec![s("bar"), s("baz")])));
    assert_eq!(get("/foo/0"), Ok(s("bar")));
    assert_eq!(get("/"), Ok(JsonValue::Num(0)));
    assert_eq!(get("/a~1b"), Ok(JsonValue::Num(1)));
    assert_eq!(get("/c%d"), Ok(JsonValue::Num(2)));
    assert_eq!(get("/e^f"), Ok(JsonValue::Num(3)));
    assert_eq!(get("/g|h"), Ok(JsonValue::Num(4)));
    assert_eq!(get("/i\\j"), Ok(JsonValue::Num(5)));
    assert_eq!(get("/k\"l"), Ok(JsonValue::Num(6)));
    assert_eq!(get("/ "), Ok(JsonValue::Num(7)));
    assert_eq!(get("/m~0n"), Ok(JsonValue::Num(8)));
}

#[test]
fn rfc_section_6() {
    assert_eq!(get("#"), Ok(doc()));
    assert_eq!(get("#/foo"), Ok(JsonValue::Array(vec![s("bar"), s("baz")])));
    assert_eq!(get("#/foo/0"), Ok(s("bar")));
    assert_eq!(get("#/"), Ok(JsonValue::Num(0)));
    assert_eq!(get("#/a~1b"), Ok(JsonValue::Num(1)));
    assert_eq!(get("#/c%25d"), Ok(JsonValue::Num(2)));
    assert_eq!(get("#/e%5Ef"), Ok(JsonValue::Num(3)));
    assert_eq!(get("#/g%7Ch"), Ok(JsonValue::Num(4)));
    assert_eq!(get("#/i%5Cj"), Ok(JsonValue::Num(5)));
    assert_eq!(get("#/k%22l"), Ok(JsonValue::Num(6)));
    assert_eq!(get("#/%20"), Ok(JsonValue::Num(7)));
    assert_eq!(get("#/m~0n"), Ok(JsonValue::Num(8)));
}

#[test]
fn resolution_errors() {
    assert_eq!(get("/foo/9"), Err(IndexError::OutOfBounds(9)));
    assert_eq!(get("/foo/bar"), Err(IndexError::NoSuchKey("bar".to_string())));
    assert_eq!(get("/foo/0/x"), Err(IndexError::NotIndexable));
    assert_eq!(get("/qux"), Err(IndexError::NoSuchKey("qux".to_string())));
    // `-` names the index one past the end, where no element exists yet
    assert_eq!(get("/foo/-"), Err(IndexError::OutOfBounds(2)));
}

#[test]
fn array_index_reading_policy() {
    // leading zeros are accepted and read as the plain numeric value
    assert_eq!(get("/foo/01"), Ok(s("baz")));
    assert_eq!(get("/foo/00"), Ok(s("bar")));
    // a sign is not a digit, so the token is treated like a missing key
    assert_eq!(get("/foo/+1"), Err(IndexError::NoSuchKey("+1".to_string())));
    assert_eq!(get("/foo/1 "), Err(IndexError::NoSuchKey("1 ".to_string())));
}

#[test]
fn get_owned_takes_the_node() {
    let d = doc();
    let p = JsonPointer::parse("/foo/0").unwrap();
    assert_eq!(d.get_owned(&p), Ok(s("bar")));
    let d = doc();
    let p = JsonPointer::parse("/m~0n").unwrap();
    assert_eq!(d.get_owned(&p), Ok(JsonValue::Num(8)));
    let d = doc();
    let p = JsonPointer::parse("/foo/9").unwrap();
    assert_eq!(d.get_owned(&p), Err(IndexError::OutOfBounds(9)));
}

#[test]
fn get_mut_replaces_the_node() {
    let mut d = doc();
    let p = JsonPointer::parse("/foo/0").unwrap();
    *d.get_mut(&p).unwrap() = JsonValue::Num(42);
    assert_eq!(d.get(&p), Ok(&JsonValue::Num(42)));
    // siblings and the rest of the document are untouched
    let q = JsonPointer::parse("/foo/1").unwrap();
    assert_eq!(d.get(&q), Ok(&s("baz")));
    let r = JsonPointer::parse("/a~1b").unwrap();
    assert_eq!(d.get(&r), Ok(&JsonValue::Num(1)));
    // a failing lookup leaves the document unchanged
    let bad = JsonPointer::parse("/foo/9").unwrap();
    assert_eq!(d.get_mut(&bad), Err(IndexError::OutOfBounds(9)));
    assert_eq!(d.get(&q), Ok(&s("baz")));
}
