use event_monitor::{tag_to_short_string, type_to_short_string, EventKey, StructKey};

fn prim(s: &str) -> EventKey {
    EventKey::Primitive(s.to_string())
}

fn skey(module: &str, name: &str, type_params: Vec<EventKey>) -> StructKey {
    StructKey { module: module.to_string(), name: name.to_string(), type_params }
}

#[test]
fn renders_primitive_as_its_canonical_form() {
    assert_eq!(tag_to_short_string(&prim("u64")), "u64");
    assert_eq!(tag_to_short_string(&prim("address")), "address");
}

#[test]
fn renders_plain_struct_without_brackets() {
    let t = skey("mod", "Foo", vec![]);
    assert_eq!(type_to_short_string(&t), "mod::Foo");
}

#[test]
fn renders_generic_struct_with_one_param() {
    let bar = EventKey::Struct(skey("mod", "Bar", vec![]));
    let t = skey("mod", "Foo", vec![bar]);
    assert_eq!(type_to_short_string(&t), "mod::Foo<mod::Bar>");
}

#[test]
fn renders_vector_param() {
    let bar = EventKey::Struct(skey("mod", "Bar", vec![]));
    let v = EventKey::Vector(Box::new(bar));
    assert_eq!(tag_to_short_string(&v), "Vector<mod::Bar>");
    let t = skey("mod", "Foo", vec![EventKey::Vector(Box::new(EventKey::Struct(skey(
        "mod", "Bar",
        vec![],
    ))))]);
    assert_eq!(type_to_short_string(&t), "mod::Foo<Vector<mod::Bar>>");
}

#[test]
fn renders_several_params_comma_joined() {
    let y = EventKey::Struct(skey("x", "Y", vec![]));
    let t = skey("a", "B", vec![y, prim("u64")]);
    assert_eq!(type_to_short_string(&t), "a::B<x::Y, u64>");
}

#[test]
fn renders_deep_nesting() {
    let inner = EventKey::Struct(skey("m", "C", vec![prim("bool")]));
    let mid = EventKey::Vector(Box::new(inner));
    let t = skey("m", "A", vec![mid]);
    assert_eq!(type_to_short_string(&t), "m::A<Vector<m::C<bool>>>");
}

#[test]
fn renders_address_as_lowercase_hex() {
    assert_eq!(event_monitor::render_address_hex(&vec![]), "0x");
    assert_eq!(event_monitor::render_address_hex(&vec![0x00, 0xab, 0x1f]), "0x00ab1f");
    assert_eq!(event_monitor::render_address_hex(&vec![255]), "0xff");
}
