//! The schema model consumed by the code generators: definitions as they
//! come out of the ASN.1 front end, already mapped to protobuf terms.

use vstd::prelude::*;

verus! {

/// One arc of an object identifier.
pub enum ObjectIdentifierComponent {
    NameForm(String),
    NumberForm(u64),
    NameAndNumberForm(String, u64),
}

/// An object identifier: a path of arcs.
pub struct ObjectIdentifier(pub Vec<ObjectIdentifierComponent>);

/// An import of definitions from another model.
pub struct Import {
    pub what: Vec<String>,
    pub from: String,
    pub from_oid: Option<ObjectIdentifier>,
}

/// A field or variant type in protobuf terms.
pub enum ProtobufType {
    Bool,
    SFixed32,
    SFixed64,
    UInt32,
    UInt64,
    SInt32,
    SInt64,
    Str,
    Bytes,
    Repeated(Box<ProtobufType>),
    OneOf(Vec<(String, ProtobufType)>),
    Complex(String),
}

/// A definition in protobuf terms: a plain enum or a message.
pub enum Protobuf {
    Enum(Vec<String>),
    Message(Vec<(String, ProtobufType)>),
}

/// A named definition.
pub struct Definition(pub String, pub Protobuf);

/// A model: a named collection of definitions with its imports.
pub struct Model {
    pub name: String,
    pub oid: Option<ObjectIdentifier>,
    pub imports: Vec<Import>,
    pub definitions: Vec<Definition>,
}

} // verus!
