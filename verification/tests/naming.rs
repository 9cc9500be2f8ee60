//! The Rust naming rules and the generator's configuration switches.

use asn1rs::gen::rust::RustCodeGenerator;

#[test]
fn test_rust_field_name_keywords() {
    assert_eq!("type_", RustCodeGenerator::rust_field_name("type", true));
    assert_eq!("impl_", RustCodeGenerator::rust_field_name("impl", true));
    assert_eq!("type", RustCodeGenerator::rust_field_name("type", false));
    assert_eq!("some_field", RustCodeGenerator::rust_field_name("some-field", true));
    assert_eq!("plain", RustCodeGenerator::rust_field_name("plain", true));
}

#[test]
fn test_rust_variant_name() {
    assert_eq!("HelloWorld", RustCodeGenerator::rust_variant_name("hello-world"));
    assert_eq!("AlreadyCamel", RustCodeGenerator::rust_variant_name("alreadyCamel"));
    assert_eq!("AB", RustCodeGenerator::rust_variant_name("a_b"));
}

#[test]
fn test_rust_module_name() {
    assert_eq!("some_name", RustCodeGenerator::rust_module_name("SomeName"));
    assert_eq!("abc_name", RustCodeGenerator::rust_module_name("ABCName"));
    assert_eq!("plain", RustCodeGenerator::rust_module_name("plain"));
    assert_eq!("a_b", RustCodeGenerator::rust_module_name("a-b"));
}

#[test]
fn test_format_number_nicely() {
    assert_eq!("1_000", RustCodeGenerator::format_number_nicely("1000"));
    assert_eq!("-32_768", RustCodeGenerator::format_number_nicely("-32768"));
    assert_eq!("7", RustCodeGenerator::format_number_nicely("7"));
    assert_eq!("123", RustCodeGenerator::format_number_nicely("123"));
}

#[test]
fn test_generator_switches() {
    let mut generator = RustCodeGenerator::default();
    assert!(generator.fields_are_pub());
    assert!(!generator.fields_have_getter_and_setter());
    generator.set_fields_pub(false);
    generator.set_fields_have_getter_and_setter(true);
    assert!(!generator.fields_are_pub());
    assert!(generator.fields_have_getter_and_setter());
    generator.add_global_derive(String::from("Eq"));
}
