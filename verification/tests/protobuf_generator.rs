//! The protobuf back-end, rendered against hand-written expectations.

use asn1rs::generate::protobuf::ProtobufDefGenerator;
use asn1rs::model::{
    Definition, Import, Model, ObjectIdentifier, ObjectIdentifierComponent, Protobuf, ProtobufType,
};

#[test]
fn test_protobuf_variant_name() {
    assert_eq!("ABC_DEF", ProtobufDefGenerator::variant_name("abc-def"));
    assert_eq!("ABC_DEF", ProtobufDefGenerator::variant_name("AbcDef"));
    assert_eq!("ABC_DEF", ProtobufDefGenerator::variant_name("ABcDef"));
}

#[test]
fn test_protobuf_field_name() {
    assert_eq!("my_field", ProtobufDefGenerator::field_name("my-field"));
    assert_eq!("plain", ProtobufDefGenerator::field_name("plain"));
}

#[test]
fn test_protobuf_model_file_name() {
    assert_eq!("test_model.proto", ProtobufDefGenerator::model_file_name("TestModel"));
    assert_eq!("abc.proto", ProtobufDefGenerator::model_file_name("abc"));
}

#[test]
fn test_protobuf_model_name_separator() {
    assert_eq!("test_model", ProtobufDefGenerator::model_name("TestModel", '_'));
    assert_eq!("test.model", ProtobufDefGenerator::model_name("TestModel", '.'));
    assert_eq!("a_b", ProtobufDefGenerator::model_name("a-b", '_'));
}

#[test]
fn test_protobuf_model_to_package_from_name() {
    assert_eq!("test.model", ProtobufDefGenerator::model_to_package("TestModel", None));
    assert_eq!("some..where", ProtobufDefGenerator::model_to_package("Some_Where", None));
}

#[test]
fn test_protobuf_model_to_package_from_oid() {
    let oid = ObjectIdentifier(vec![
        ObjectIdentifierComponent::NameForm(String::from("iso")),
        ObjectIdentifierComponent::NumberForm(3),
        ObjectIdentifierComponent::NameAndNumberForm(String::from("org"), 3),
    ]);
    assert_eq!("iso._3.org", ProtobufDefGenerator::model_to_package("Ignored", Some(&oid)));
}

#[test]
fn test_protobuf_generate_enum_file() {
    let model = Model {
        name: String::from("TestModel"),
        oid: None,
        imports: vec![],
        definitions: vec![Definition(
            String::from("Color"),
            Protobuf::Enum(vec![String::from("red"), String::from("green")]),
        )],
    };
    let (file, content) = ProtobufDefGenerator::generate_file(&model).unwrap();
    assert_eq!("test_model.proto", file);
    assert_eq!(
        "syntax = 'proto3';\npackage test.model;\n\n\nenum Color {\n    COLOR_RED = 0;\n    COLOR_GREEN = 1;\n}\n",
        content
    );
}

#[test]
fn test_protobuf_generate_message_file() {
    let model = Model {
        name: String::from("Wire"),
        oid: None,
        imports: vec![],
        definitions: vec![Definition(
            String::from("Msg"),
            Protobuf::Message(vec![
                (String::from("my-id"), ProtobufType::UInt32),
                (String::from("names"), ProtobufType::Repeated(Box::new(ProtobufType::Str))),
            ]),
        )],
    };
    let (file, content) = ProtobufDefGenerator::generate_file(&model).unwrap();
    assert_eq!("wire.proto", file);
    assert_eq!(
        "syntax = 'proto3';\npackage wire;\n\n\nmessage Msg {\n    uint32 my_id = 1;\n    repeated string names = 2;\n}\n",
        content
    );
}

#[test]
fn test_protobuf_oneof_field() {
    let model = Model {
        name: String::from("Wire"),
        oid: None,
        imports: vec![],
        definitions: vec![],
    };
    let mut target = String::new();
    let role = ProtobufType::OneOf(vec![
        (String::from("num"), ProtobufType::SInt32),
        (String::from("text"), ProtobufType::Str),
    ]);
    ProtobufDefGenerator::append_field(&mut target, &model, "value", &role, 1).unwrap();
    assert_eq!(
        "    oneof value {\n      sint32 num = 1;\n      string text = 2;\n    };\n",
        target
    );
}

#[test]
fn test_protobuf_imports_and_complex_prefix() {
    let model = Model {
        name: String::from("Main"),
        oid: None,
        imports: vec![Import {
            what: vec![String::from("Other")],
            from: String::from("SideModel"),
            from_oid: None,
        }],
        definitions: vec![Definition(
            String::from("Holder"),
            Protobuf::Message(vec![(
                String::from("other"),
                ProtobufType::Complex(String::from("Other")),
            )]),
        )],
    };
    let (_, content) = ProtobufDefGenerator::generate_file(&model).unwrap();
    assert_eq!(
        "syntax = 'proto3';\npackage main;\n\nimport 'side_model.proto';\n\nmessage Holder {\n    side.model.Other other = 1;\n}\n",
        content
    );
}

#[test]
fn test_protobuf_generator_queue() {
    let mut generator = ProtobufDefGenerator::default();
    assert_eq!(0, generator.models().len());
    generator.add_model(Model {
        name: String::from("One"),
        oid: None,
        imports: vec![],
        definitions: vec![],
    });
    assert_eq!(1, generator.models().len());
}
