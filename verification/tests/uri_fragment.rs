use json_pointer_simd::JsonPointer;

fn assert_unparse(s: &str) {
    let ptr = JsonPointer::parse(s).unwrap();
    assert_eq!(ptr.uri_fragment(), s);
}

#[test]
fn uri_fragment_unparses() {
    assert_unparse("#/");
    assert_unparse("#/per%25/%25cent");
}
