//! The protobuf text back-end: renders a schema model as a `.proto` file.
//!
//! Every emitting function states the exact text it appends, through the
//! spec-level `render_*` functions.

use crate::gen::rust::{dash_to_underscore, module_name_chars};
use crate::model::{
    Definition, Import, Model, ObjectIdentifier, ObjectIdentifierComponent, Protobuf, ProtobufType,
};
use crate::text::{
    char_to_lowercase, char_to_uppercase, chars_eq, chars_to_string, dec_str, decimal_chars,
    str_to_chars, unicode_is_alphabetic, unicode_is_uppercase, unicode_lower, unicode_upper,
};
use vstd::prelude::*;
use vstd::string::StringExecFns;

verus! {

/// Everything that can go wrong while rendering; nothing does when the
/// target is an in-memory string, but callers match on it all the same.
#[derive(Debug)]
pub enum Error {
    Fmt,
}

// ---------------------------------------------------------------------------
// What the emitted text is, stated mathematically
// ---------------------------------------------------------------------------
/// Upper snake case, first phase: an underscore before an inner uppercase
/// character that follows a non-uppercase one; `-` becomes `_`.
pub open spec fn snake_upper(s: Seq<char>, prev_upper: bool) -> Seq<char>
    decreases s.len(),
{
    if s.len() == 0 {
        Seq::empty()
    } else if s[0] == '-' {
        seq!['_'] + snake_upper(s.skip(1), prev_upper)
    } else {
        (if !prev_upper && unicode_is_uppercase(s[0]) {
            seq!['_']
        } else {
            Seq::empty()
        }) + seq![s[0]] + snake_upper(s.skip(1), unicode_is_uppercase(s[0]))
    }
}

/// Every character uppercased.
pub open spec fn upper_all(s: Seq<char>) -> Seq<char>
    decreases s.len(),
{
    if s.len() == 0 {
        Seq::empty()
    } else {
        unicode_upper(s[0]) + upper_all(s.skip(1))
    }
}

/// A protobuf enum variant name: upper snake case.
pub open spec fn spec_variant_name(s: Seq<char>) -> Seq<char> {
    upper_all(snake_upper(s, true))
}

/// Lower snake case with a chosen separator, as for model names.
pub open spec fn model_name_chars(s: Seq<char>, i: int, prev_lowered: bool, sep: char) -> Seq<char>
    decreases s.len() - i,
{
    if i < 0 || i >= s.len() {
        Seq::empty()
    } else if unicode_is_uppercase(s[i]) {
        let s_sep: Seq<char> = if i > 0 && (!prev_lowered || (i + 1 < s.len()
            && crate::text::unicode_is_lowercase(s[i + 1]))) {
            seq![sep]
        } else {
            Seq::empty()
        };
        s_sep + unicode_lower(s[i]) + model_name_chars(s, i + 1, true, sep)
    } else if s[i] == '-' {
        seq![sep] + model_name_chars(s, i + 1, false, sep)
    } else {
        seq![s[i]] + model_name_chars(s, i + 1, false, sep)
    }
}

/// The file a model is written to.
pub open spec fn spec_model_file_name(s: Seq<char>) -> Seq<char> {
    model_name_chars(s, 0, false, '_') + ".proto"@
}

/// `_` becomes `.`, every other character stays.
pub open spec fn underscore_to_dot(s: Seq<char>) -> Seq<char> {
    s.map_values(
        |c: char|
            if c == '_' {
                '.'
            } else {
                c
            },
    )
}

/// The package fragment of one object identifier arc.
pub open spec fn spec_component_name(c: ObjectIdentifierComponent) -> Seq<char> {
    match c {
        ObjectIdentifierComponent::NameForm(n) => if n@.len() > 0 && !unicode_is_alphabetic(
            n@[0],
        ) {
            "_"@ + dash_to_underscore(n@)
        } else {
            dash_to_underscore(n@)
        },
        ObjectIdentifierComponent::NameAndNumberForm(n, _) => if n@.len() > 0
            && !unicode_is_alphabetic(n@[0]) {
            "_"@ + dash_to_underscore(n@)
        } else {
            dash_to_underscore(n@)
        },
        ObjectIdentifierComponent::NumberForm(n) => "_"@ + dec_str(n as nat),
    }
}

/// The arcs of an object identifier joined into a package path.
pub open spec fn spec_package_path(cs: Seq<ObjectIdentifierComponent>, i: int) -> Seq<char>
    decreases cs.len() - i,
{
    if i < 0 || i >= cs.len() {
        Seq::empty()
    } else if i == cs.len() - 1 {
        module_name_chars(spec_component_name(cs[i]), 0, false)
    } else {
        module_name_chars(spec_component_name(cs[i]), 0, false) + "."@ + spec_package_path(
            cs,
            i + 1,
        )
    }
}

/// The protobuf package of a model: from its object identifier where it has
/// one, from its name otherwise.
pub open spec fn spec_model_to_package(path: Seq<char>, oid: Option<ObjectIdentifier>) -> Seq<
    char,
> {
    match oid {
        Some(o) => spec_package_path(o.0@, 0),
        None => model_name_chars(underscore_to_dot(path), 0, false, '.'),
    }
}

/// The protobuf name of a scalar type.
pub open spec fn spec_type_str(t: ProtobufType) -> Seq<char>
    decreases t,
{
    match t {
        ProtobufType::Bool => "bool"@,
        ProtobufType::SFixed32 => "sfixed32"@,
        ProtobufType::SFixed64 => "sfixed64"@,
        ProtobufType::UInt32 => "uint32"@,
        ProtobufType::UInt64 => "uint64"@,
        ProtobufType::SInt32 => "sint32"@,
        ProtobufType::SInt64 => "sint64"@,
        ProtobufType::Str => "string"@,
        ProtobufType::Bytes => "bytes"@,
        ProtobufType::Repeated(inner) => "repeated "@ + spec_type_str(*inner),
        ProtobufType::OneOf(_) => "oneof"@,
        ProtobufType::Complex(n) => n@,
    }
}

/// Whether an import list brings `name` in.
pub open spec fn import_has(what: Seq<String>, name: Seq<char>) -> bool {
    exists|j: int| 0 <= j < what.len() && what[j]@ == name
}

/// The package prefix of a complex type: the package of the first import
/// that brings the name in, or nothing.
pub open spec fn spec_complex_prefix(imports: Seq<Import>, i: int, name: Seq<char>) -> Seq<char>
    decreases imports.len() - i,
{
    if i < 0 || i >= imports.len() {
        Seq::empty()
    } else if import_has(imports[i].what@, name) {
        spec_model_to_package(imports[i].from@, imports[i].from_oid) + "."@
    } else {
        spec_complex_prefix(imports, i + 1, name)
    }
}

/// The full protobuf type of a field, package prefix included.
pub open spec fn spec_full_type(t: ProtobufType, imports: Seq<Import>) -> Seq<char>
    decreases t,
{
    match t {
        ProtobufType::Complex(n) => spec_complex_prefix(imports, 0, n@) + n@,
        ProtobufType::Repeated(inner) => "repeated "@ + spec_full_type(*inner, imports),
        other => spec_type_str(other),
    }
}

/// One enum variant line.
pub open spec fn render_variant(base: Seq<char>, variant: Seq<char>, tag: nat) -> Seq<char> {
    "    "@ + spec_variant_name(base) + "_"@ + spec_variant_name(variant) + " = "@ + dec_str(tag)
        + ";\n"@
}

/// The lines of a oneof block, tags counted from one.
pub open spec fn render_oneof_lines(
    vs: Seq<(String, ProtobufType)>,
    imports: Seq<Import>,
    i: int,
) -> Seq<char>
    decreases vs.len() - i,
{
    if i < 0 || i >= vs.len() {
        Seq::empty()
    } else {
        "      "@ + spec_full_type(vs[i].1, imports) + " "@ + vs[i].0@ + " = "@ + dec_str(
            (i + 1) as nat,
        ) + ";\n"@ + render_oneof_lines(vs, imports, i + 1)
    }
}

/// One message field line; a oneof field carries its block instead of a tag.
pub open spec fn render_field(
    imports: Seq<Import>,
    name: Seq<char>,
    role: ProtobufType,
    tag: nat,
) -> Seq<char> {
    let suffix: Seq<char> = match role {
        ProtobufType::OneOf(vs) => " {\n"@ + render_oneof_lines(vs@, imports, 0) + "    }"@,
        _ => " = "@ + dec_str(tag),
    };
    "    "@ + spec_full_type(role, imports) + " "@ + dash_to_underscore(name) + suffix + ";\n"@
}

/// The variant lines of an enum, tags counted from zero.
pub open spec fn render_enum_lines(base: Seq<char>, vs: Seq<String>, i: int) -> Seq<char>
    decreases vs.len() - i,
{
    if i < 0 || i >= vs.len() {
        Seq::empty()
    } else {
        render_variant(base, vs[i]@, i as nat) + render_enum_lines(base, vs, i + 1)
    }
}

/// The field lines of a message, tags counted from one.
pub open spec fn render_field_lines(
    imports: Seq<Import>,
    fs: Seq<(String, ProtobufType)>,
    i: int,
) -> Seq<char>
    decreases fs.len() - i,
{
    if i < 0 || i >= fs.len() {
        Seq::empty()
    } else {
        render_field(imports, fs[i].0@, fs[i].1, (i + 1) as nat) + render_field_lines(
            imports,
            fs,
            i + 1,
        )
    }
}

/// One whole definition.
pub open spec fn render_definition(imports: Seq<Import>, d: Definition) -> Seq<char> {
    match d.1 {
        Protobuf::Enum(vs) => "enum "@ + d.0@ + " {\n"@ + render_enum_lines(d.0@, vs@, 0)
            + "}\n"@,
        Protobuf::Message(fs) => "message "@ + d.0@ + " {\n"@ + render_field_lines(
            imports,
            fs@,
            0,
        ) + "}\n"@,
    }
}

/// The header: the syntax line and the package line.
pub open spec fn render_header(name: Seq<char>, oid: Option<ObjectIdentifier>) -> Seq<char> {
    "syntax = 'proto3';\n"@ + "package "@ + spec_model_to_package(name, oid) + ";\n"@ + "\n"@
}

/// The import lines, closed by a blank line.
pub open spec fn render_import_lines(imports: Seq<Import>, i: int) -> Seq<char>
    decreases imports.len() - i,
{
    if i < 0 || i >= imports.len() {
        Seq::empty()
    } else {
        "import '"@ + spec_model_file_name(imports[i].from@) + "';\n"@ + render_import_lines(
            imports,
            i + 1,
        )
    }
}

/// The definitions, in order.
pub open spec fn render_definitions(m: Model, i: int) -> Seq<char>
    decreases m.definitions@.len() - i,
{
    if i < 0 || i >= m.definitions@.len() {
        Seq::empty()
    } else {
        render_definition(m.imports@, m.definitions@[i]) + render_definitions(m, i + 1)
    }
}

/// A whole file.
pub open spec fn render_file(m: Model) -> Seq<char> {
    render_header(m.name@, m.oid) + render_import_lines(m.imports@, 0) + "\n"@
        + render_definitions(m, 0)
}

// ---------------------------------------------------------------------------
// The generator
// ---------------------------------------------------------------------------
/// Renders schema models as protobuf definition files.
#[derive(Default)]
pub struct ProtobufDefGenerator {
    models: Vec<Model>,
}

impl ProtobufDefGenerator {
    /// The models queued for generation.
    pub closed spec fn queued(&self) -> Seq<Model> {
        self.models@
    }

    /// Queue a model.
    pub fn add_model(&mut self, model: Model) -> (r: ())
        requires
            old(self).queued().len() + 1 <= usize::MAX,
        ensures
            final(self).queued() == old(self).queued().push(model),
    {
        self.models.push(model);
    }

    /// The queued models.
    pub fn models(&self) -> (r: &Vec<Model>)
        ensures
            r@ == self.queued(),
    {
        &self.models
    }

    /// The queued models, for reworking in place.
    pub fn models_mut(&mut self) -> (r: &mut Vec<Model>)
        ensures
            r@ == old(self).queued(),
            final(self).queued() == final(r)@,
    {
        &mut self.models
    }

    /// Render every queued model: file names and contents, in order.
    pub fn to_string(&self) -> (r: Result<Vec<(String, String)>, Error>)
        ensures
            r matches Ok(files) ==> files@.len() == self.queued().len() && (forall|i: int|
                0 <= i < files@.len() ==> #[trigger] files@[i].0@ == spec_model_file_name(
                    self.queued()[i].name@,
                ) && files@[i].1@ == render_file(self.queued()[i])),
            r is Ok,
    {
        let mut files: Vec<(String, String)> = Vec::new();
        let mut i: usize = 0;
        while i < self.models.len()
            invariant
                i <= self.queued().len(),
                self.queued() == self.models@,
                files@.len() == i,
                forall|j: int|
                    0 <= j < i ==> #[trigger] files@[j].0@ == spec_model_file_name(
                        self.queued()[j].name@,
                    ) && files@[j].1@ == render_file(self.queued()[j]),
            decreases self.models@.len() - i,
        {
            let file = match Self::generate_file(&self.models[i]) {
                Ok(f) => f,
                Err(e) => {
                    return Err(e);
                },
            };
            files.push(file);
            i = i + 1;
        }
        Ok(files)
    }

    /// Render one model: its file name and its whole content.
    pub fn generate_file(model: &Model) -> (r: Result<(String, String), Error>)
        ensures
            r matches Ok(p) ==> p.0@ == spec_model_file_name(model.name@) && p.1@ == render_file(
                *model,
            ),
            r is Ok,
    {
        let file_name = Self::model_file_name(model.name.as_str());
        let mut content = String::new();
        let _ = Self::append_header(&mut content, model);
        let _ = Self::append_imports(&mut content, model);
        let mut i: usize = 0;
        proof {
            assert(content@ =~= render_header(model.name@, model.oid) + render_import_lines(
                model.imports@,
                0,
            ) + "\n"@);
        }
        while i < model.definitions.len()
            invariant
                i <= model.definitions@.len(),
                content@ + render_definitions(*model, i as int) =~= render_header(
                    model.name@,
                    model.oid,
                ) + render_import_lines(model.imports@, 0) + "\n"@ + render_definitions(*model, 0),
            decreases model.definitions@.len() - i,
        {
            let ghost before = content@;
            let _ = Self::append_definition(&mut content, model, &model.definitions[i]);
            proof {
                assert(render_definitions(*model, i as int) == render_definition(
                    model.imports@,
                    model.definitions@[i as int],
                ) + render_definitions(*model, i + 1));
                assert(content@ + render_definitions(*model, i + 1) =~= before
                    + render_definitions(*model, i as int));
            }
            i = i + 1;
        }
        proof {
            assert(render_definitions(*model, model.definitions@.len() as int)
                =~= Seq::<char>::empty());
            assert(content@ + render_definitions(*model, model.definitions@.len() as int)
                =~= content@);
            assert(content@ =~= render_file(*model));
        }
        Ok((file_name, content))
    }

    /// Append the syntax and package lines.
    pub fn append_header(target: &mut String, model: &Model) -> (r: Result<(), Error>)
        ensures
            r is Ok,
            final(target)@ == old(target)@ + render_header(model.name@, model.oid),
    {
        target.append("syntax = 'proto3';\n");
        target.append("package ");
        let pkg = Self::model_to_package(model.name.as_str(), model.oid.as_ref());
        target.append(pkg.as_str());
        target.append(";\n");
        target.append("\n");
        proof {
            assert(final(target)@ =~= old(target)@ + render_header(model.name@, model.oid));
        }
        Ok(())
    }

    /// Append one import line per import, closed by a blank line.
    pub fn append_imports(target: &mut String, model: &Model) -> (r: Result<(), Error>)
        ensures
            r is Ok,
            final(target)@ == old(target)@ + render_import_lines(model.imports@, 0) + "\n"@,
    {
        let mut i: usize = 0;
        while i < model.imports.len()
            invariant
                i <= model.imports@.len(),
                target@ + render_import_lines(model.imports@, i as int) =~= old(target)@
                    + render_import_lines(model.imports@, 0),
            decreases model.imports@.len() - i,
        {
            let ghost before = target@;
            target.append("import '");
            let fname = Self::model_file_name(model.imports[i].from.as_str());
            target.append(fname.as_str());
            target.append("';\n");
            proof {
                assert(render_import_lines(model.imports@, i as int) == "import '"@
                    + spec_model_file_name(model.imports@[i as int].from@) + "';\n"@
                    + render_import_lines(model.imports@, i + 1));
                assert(target@ + render_import_lines(model.imports@, i + 1) =~= before
                    + render_import_lines(model.imports@, i as int));
            }
            i = i + 1;
        }
                target.append("\n");
        proof {
            assert(render_import_lines(model.imports@, model.imports@.len() as int)
                =~= Seq::<char>::empty());
            assert(final(target)@ =~= old(target)@ + render_import_lines(model.imports@, 0)
                + "\n"@);
        }
        Ok(())
    }

    /// Append one whole definition.
    pub fn append_definition(target: &mut String, model: &Model, definition: &Definition) -> (r:
        Result<(), Error>)
        ensures
            r is Ok,
            final(target)@ == old(target)@ + render_definition(model.imports@, *definition),
    {
        match &definition.1 {
            Protobuf::Enum(variants) => {
                target.append("enum ");
                target.append(definition.0.as_str());
                target.append(" {\n");
                let mut i: usize = 0;
                let ghost base = old(target)@ + "enum "@ + definition.0@ + " {\n"@;
                while i < variants.len()
                    invariant
                        i <= variants@.len(),
                        base == old(target)@ + "enum "@ + definition.0@ + " {\n"@,
                        target@ + render_enum_lines(definition.0@, variants@, i as int) =~= base
                            + render_enum_lines(definition.0@, variants@, 0),
                    decreases variants@.len() - i,
                {
                    let ghost before = target@;
                    let _ = Self::append_variant(
                        target,
                        definition.0.as_str(),
                        variants[i].as_str(),
                        i,
                    );
                    proof {
                        assert(render_enum_lines(definition.0@, variants@, i as int)
                            == render_variant(definition.0@, variants@[i as int]@, i as nat)
                            + render_enum_lines(definition.0@, variants@, i + 1));
                        assert(target@ + render_enum_lines(definition.0@, variants@, i + 1)
                            =~= before + render_enum_lines(definition.0@, variants@, i as int));
                    }
                    i = i + 1;
                }
                target.append("}\n");
                proof {
                    assert(render_enum_lines(definition.0@, variants@, variants@.len() as int)
                        =~= Seq::<char>::empty());
                    assert(final(target)@ =~= old(target)@ + render_definition(
                        model.imports@,
                        *definition,
                    ));
                }
            },
            Protobuf::Message(fields) => {
                target.append("message ");
                target.append(definition.0.as_str());
                target.append(" {\n");
                let mut i: usize = 0;
                let ghost base = old(target)@ + "message "@ + definition.0@ + " {\n"@;
                while i < fields.len()
                    invariant
                        i <= fields@.len(),
                        base == old(target)@ + "message "@ + definition.0@ + " {\n"@,
                        target@ + render_field_lines(model.imports@, fields@, i as int) =~= base
                            + render_field_lines(model.imports@, fields@, 0),
                    decreases fields@.len() - i,
                {
                    let ghost before = target@;
                    let _ = Self::append_field(
                        target,
                        model,
                        fields[i].0.as_str(),
                        &fields[i].1,
                        i + 1,
                    );
                    proof {
                        assert(render_field_lines(model.imports@, fields@, i as int)
                            == render_field(
                            model.imports@,
                            fields@[i as int].0@,
                            fields@[i as int].1,
                            (i + 1) as nat,
                        ) + render_field_lines(model.imports@, fields@, i + 1));
                        assert(target@ + render_field_lines(model.imports@, fields@, i + 1)
                            =~= before + render_field_lines(model.imports@, fields@, i as int));
                    }
                    i = i + 1;
                }
                target.append("}\n");
                proof {
                    assert(render_field_lines(model.imports@, fields@, fields@.len() as int)
                        =~= Seq::<char>::empty());
                    assert(final(target)@ =~= old(target)@ + render_definition(
                        model.imports@,
                        *definition,
                    ));
                }
            },
        }
        Ok(())
    }

    /// Append one message field line; a oneof field carries its block.
    pub fn append_field(
        target: &mut String,
        model: &Model,
        name: &str,
        role: &ProtobufType,
        tag: usize,
    ) -> (r: Result<(), Error>)
        ensures
            r is Ok,
            final(target)@ == old(target)@ + render_field(
                model.imports@,
                name@,
                *role,
                tag as nat,
            ),
    {
        target.append("    ");
        let full = Self::role_to_full_type(role, model);
        target.append(full.as_str());
        target.append(" ");
        let fname = Self::field_name(name);
        target.append(fname.as_str());
        match role {
            ProtobufType::OneOf(variants) => {
                target.append(" {\n");
                let mut i: usize = 0;
                let ghost mid = old(target)@ + "    "@ + spec_full_type(*role, model.imports@)
                    + " "@ + dash_to_underscore(name@) + " {\n"@;
                proof {
                    assert(target@ =~= mid);
                }
                while i < variants.len()
                    invariant
                        i <= variants@.len(),
                        mid == old(target)@ + "    "@ + spec_full_type(*role, model.imports@)
                            + " "@ + dash_to_underscore(name@) + " {\n"@,
                        target@ + render_oneof_lines(variants@, model.imports@, i as int) =~= mid
                            + render_oneof_lines(variants@, model.imports@, 0),
                    decreases variants@.len() - i,
                {
                    let ghost before = target@;
                    target.append("      ");
                    let vt = Self::role_to_full_type(&variants[i].1, model);
                    target.append(vt.as_str());
                    target.append(" ");
                    target.append(variants[i].0.as_str());
                    target.append(" = ");
                    let digits = decimal_chars((i + 1) as u64);
                    let ds = chars_to_string(&digits);
                    target.append(ds.as_str());
                    target.append(";\n");
                    proof {
                        assert(ds@ == dec_str((i + 1) as nat));
                        assert(render_oneof_lines(variants@, model.imports@, i as int)
                            == "      "@ + spec_full_type(variants@[i as int].1, model.imports@)
                            + " "@ + variants@[i as int].0@ + " = "@ + dec_str((i + 1) as nat)
                            + ";\n"@ + render_oneof_lines(variants@, model.imports@, i + 1));
                        assert(target@ + render_oneof_lines(variants@, model.imports@, i + 1)
                            =~= before + render_oneof_lines(variants@, model.imports@, i as int));
                    }
                    i = i + 1;
                }
                target.append("    }");
                proof {
                    assert(render_oneof_lines(variants@, model.imports@, variants@.len() as int)
                        =~= Seq::<char>::empty());
                }
            },
            _ => {
                target.append(" = ");
                let digits = decimal_chars(tag as u64);
                let ds = chars_to_string(&digits);
                target.append(ds.as_str());
            },
        }
        target.append(";\n");
        proof {
            assert(final(target)@ =~= old(target)@ + render_field(
                model.imports@,
                name@,
                *role,
                tag as nat,
            ));
        }
        Ok(())
    }

    /// Append one enum variant line.
    pub fn append_variant(target: &mut String, base: &str, variant: &str, tag: usize) -> (r: Result<
        (),
        Error,
    >)
        ensures
            r is Ok,
            final(target)@ == old(target)@ + render_variant(base@, variant@, tag as nat),
    {
        target.append("    ");
        let b = Self::variant_name(base);
        target.append(b.as_str());
        target.append("_");
        let v = Self::variant_name(variant);
        target.append(v.as_str());
        target.append(" = ");
        let digits = decimal_chars(tag as u64);
        let ds = chars_to_string(&digits);
        target.append(ds.as_str());
        target.append(";\n");
        proof {
            assert(final(target)@ =~= old(target)@ + render_variant(base@, variant@, tag as nat));
        }
        Ok(())
    }

    /// The full protobuf type of a field, package prefix included.
    pub fn role_to_full_type(role: &ProtobufType, model: &Model) -> (r: String)
        ensures
            r@ == spec_full_type(*role, model.imports@),
        decreases *role,
    {
        match role {
            ProtobufType::Complex(name) => {
                let mut prefixed = String::new();
                let mut i: usize = 0;
                let mut found = false;
                while i < model.imports.len() && !found
                    invariant
                        i <= model.imports@.len(),
                        !found ==> prefixed@ =~= Seq::<char>::empty() && spec_complex_prefix(
                            model.imports@,
                            0,
                            name@,
                        ) == spec_complex_prefix(model.imports@, i as int, name@),
                        found ==> prefixed@ == spec_complex_prefix(model.imports@, 0, name@),
                    decreases model.imports@.len() - i,
                {
                    let has = import_what_contains(&model.imports[i].what, name);
                    if has {
                        let pkg = Self::model_to_package(
                            model.imports[i].from.as_str(),
                            model.imports[i].from_oid.as_ref(),
                        );
                        prefixed.append(pkg.as_str());
                        target_push_dot(&mut prefixed);
                        found = true;
                    }
                    i = i + 1;
                }
                proof {
                    if !found {
                        assert(spec_complex_prefix(model.imports@, model.imports@.len() as int,
                            name@) =~= Seq::<char>::empty());
                    }
                }
                prefixed.append(name.as_str());
                proof {
                    assert(prefixed@ =~= spec_full_type(*role, model.imports@));
                }
                prefixed
            },
            ProtobufType::Repeated(inner) => {
                let mut out = String::new();
                out.append("repeated ");
                let rest = Self::role_to_full_type(inner, model);
                out.append(rest.as_str());
                proof {
                    assert(out@ =~= spec_full_type(*role, model.imports@));
                }
                out
            },
            other => Self::type_str(other),
        }
    }

    /// The protobuf name of a scalar type.
    fn type_str(role: &ProtobufType) -> (r: String)
        ensures
            r@ == spec_type_str(*role),
        decreases *role,
    {
        match role {
            ProtobufType::Bool => String::from_str("bool"),
            ProtobufType::SFixed32 => String::from_str("sfixed32"),
            ProtobufType::SFixed64 => String::from_str("sfixed64"),
            ProtobufType::UInt32 => String::from_str("uint32"),
            ProtobufType::UInt64 => String::from_str("uint64"),
            ProtobufType::SInt32 => String::from_str("sint32"),
            ProtobufType::SInt64 => String::from_str("sint64"),
            ProtobufType::Str => String::from_str("string"),
            ProtobufType::Bytes => String::from_str("bytes"),
            ProtobufType::Repeated(inner) => {
                let mut out = String::new();
                out.append("repeated ");
                let rest = Self::type_str(inner);
                out.append(rest.as_str());
                proof {
                    assert(out@ =~= spec_type_str(*role));
                }
                out
            },
            ProtobufType::OneOf(_) => String::from_str("oneof"),
            ProtobufType::Complex(n) => String::from_str(n.as_str()),
        }
    }

    /// A protobuf enum variant name: upper snake case.
    pub fn variant_name(name: &str) -> (r: String)
        ensures
            r@ == spec_variant_name(name@),
    {
        let chars = str_to_chars(name);
        let mut snake: Vec<char> = Vec::new();
        let mut prev_upper = true;
        let mut i: usize = 0;
        proof {
            assert(name@.skip(0) =~= name@);
        }
        while i < chars.len()
            invariant
                i <= chars@.len(),
                chars@ == name@,
                snake_upper(name@, true) == snake@ + snake_upper(name@.skip(i as int), prev_upper),
            decreases chars@.len() - i,
        {
            let c = chars[i];
            proof {
                assert(name@.skip(i as int)[0] == name@[i as int]);
                assert(name@.skip(i as int).skip(1) =~= name@.skip(i + 1));
            }
            if c == '-' {
                snake.push('_');
            } else {
                if !prev_upper && c.is_uppercase() {
                    snake.push('_');
                }
                snake.push(c);
                prev_upper = c.is_uppercase();
            }
            i = i + 1;
        }
        proof {
            assert(snake_upper(name@.skip(chars@.len() as int), prev_upper)
                =~= Seq::<char>::empty());
            assert(snake@ =~= snake_upper(name@, true));
        }
        let mut out: Vec<char> = Vec::new();
        let mut j: usize = 0;
        proof {
            assert(snake@.skip(0) =~= snake@);
        }
        while j < snake.len()
            invariant
                j <= snake@.len(),
                snake@ == snake_upper(name@, true),
                upper_all(snake@) == out@ + upper_all(snake@.skip(j as int)),
            decreases snake@.len() - j,
        {
            proof {
                assert(snake@.skip(j as int)[0] == snake@[j as int]);
                assert(snake@.skip(j as int).skip(1) =~= snake@.skip(j + 1));
            }
            let mut up = char_to_uppercase(snake[j]);
            out.append(&mut up);
            j = j + 1;
        }
        proof {
            assert(upper_all(snake@.skip(snake@.len() as int)) =~= Seq::<char>::empty());
            assert(out@ =~= spec_variant_name(name@));
        }
        chars_to_string(&out)
    }

    /// A protobuf field name: `-` becomes `_`.
    pub fn field_name(name: &str) -> (r: String)
        ensures
            r@ == dash_to_underscore(name@),
    {
        let chars = str_to_chars(name);
        let mut out: Vec<char> = Vec::new();
        let mut i: usize = 0;
        while i < chars.len()
            invariant
                i <= chars@.len(),
                chars@ == name@,
                out@ =~= dash_to_underscore(name@).take(i as int),
            decreases chars@.len() - i,
        {
            let c = chars[i];
            if c == '-' {
                out.push('_');
            } else {
                out.push(c);
            }
            i = i + 1;
        }
        proof {
            assert(out@ =~= dash_to_underscore(name@));
        }
        chars_to_string(&out)
    }

    /// The file a model is written to.
    pub fn model_file_name(model: &str) -> (r: String)
        ensures
            r@ == spec_model_file_name(model@),
    {
        let mut name = Self::model_name(model, '_');
        name.append(".proto");
        name
    }

    /// Lower snake case with a chosen separator.
    pub fn model_name(model: &str, separator: char) -> (r: String)
        ensures
            r@ == model_name_chars(model@, 0, false, separator),
    {
        let chars = str_to_chars(model);
        let mut out: Vec<char> = Vec::new();
        let mut prev_lowered = false;
        let mut i: usize = 0;
        while i < chars.len()
            invariant
                i <= chars@.len(),
                chars@ == model@,
                i == 0 ==> prev_lowered == false,
                model_name_chars(model@, 0, false, separator) == out@ + model_name_chars(
                    model@,
                    i as int,
                    prev_lowered,
                    separator,
                ),
            decreases chars@.len() - i,
        {
            let c = chars[i];
            let mut lowered = false;
            if c.is_uppercase() {
                if i > 0 {
                    if !prev_lowered {
                        out.push(separator);
                    } else if i + 1 < chars.len() {
                        if chars[i + 1].is_lowercase() {
                            out.push(separator);
                        }
                    }
                }
                let mut low = char_to_lowercase(c);
                out.append(&mut low);
                lowered = true;
            } else if c == '-' {
                out.push(separator);
            } else {
                out.push(c);
            }
            prev_lowered = lowered;
            i = i + 1;
        }
        proof {
            assert(out@ =~= model_name_chars(model@, 0, false, separator));
        }
        chars_to_string(&out)
    }

    /// The protobuf package of a model.
    pub fn model_to_package(path: &str, oid: Option<&ObjectIdentifier>) -> (r: String)
        ensures
            r@ == spec_model_to_package(
                path@,
                match oid {
                    Some(o) => Some(*o),
                    None => None,
                },
            ),
    {
        match oid {
            Some(o) => {
                let mut out: Vec<char> = Vec::new();
                let n = o.0.len();
                let mut i: usize = 0;
                while i < n
                    invariant
                        i <= n,
                        n == o.0@.len(),
                        out@ + spec_package_path(o.0@, i as int) =~= spec_package_path(o.0@, 0),
                    decreases n - i,
                {
                    let ghost before = out@;
                    let part = component_package_chars(&o.0[i]);
                    let mut seg = module_name_exec(&part);
                    out.append(&mut seg);
                    if i + 1 < n {
                        out.push('.');
                    }
                    proof {
                        reveal_strlit(".");
                        if i + 1 < n {
                            assert(spec_package_path(o.0@, i as int) == module_name_chars(
                                spec_component_name(o.0@[i as int]),
                                0,
                                false,
                            ) + "."@ + spec_package_path(o.0@, i + 1));
                            assert(out@ =~= before + module_name_chars(
                                spec_component_name(o.0@[i as int]),
                                0,
                                false,
                            ) + "."@);
                        } else {
                            assert(spec_package_path(o.0@, i as int) == module_name_chars(
                                spec_component_name(o.0@[i as int]),
                                0,
                                false,
                            ));
                        }
                        assert(out@ + spec_package_path(o.0@, i + 1) =~= spec_package_path(
                            o.0@,
                            0,
                        ));
                    }
                    i = i + 1;
                }
                proof {
                    assert(spec_package_path(o.0@, n as int) =~= Seq::<char>::empty());
                    assert(out@ =~= spec_package_path(o.0@, 0));
                }
                chars_to_string(&out)
            },
            None => {
                let chars = str_to_chars(path);
                let mut dotted: Vec<char> = Vec::new();
                let mut i: usize = 0;
                while i < chars.len()
                    invariant
                        i <= chars@.len(),
                        chars@ == path@,
                        dotted@ =~= underscore_to_dot(path@).take(i as int),
                    decreases chars@.len() - i,
                {
                    let c = chars[i];
                    if c == '_' {
                        dotted.push('.');
                    } else {
                        dotted.push(c);
                    }
                    i = i + 1;
                }
                proof {
                    assert(dotted@ =~= underscore_to_dot(path@));
                }
                let s = chars_to_string(&dotted);
                Self::model_name(s.as_str(), '.')
            },
        }
    }
}

/// Whether an import's name list brings `name` in.
fn import_what_contains(what: &Vec<String>, name: &str) -> (r: bool)
    ensures
        r == import_has(what@, name@),
{
    let nm = str_to_chars(name);
    let mut j: usize = 0;
    while j < what.len()
        invariant
            j <= what@.len(),
            nm@ == name@,
            forall|k: int| 0 <= k < j ==> what@[k]@ != name@,
        decreases what@.len() - j,
    {
        let wj = str_to_chars(what[j].as_str());
        if chars_eq(&wj, &nm) {
            proof {
                assert(what@[j as int]@ == name@);
            }
            return true;
        }
        j = j + 1;
    }
    false
}

/// Append a dot to the package prefix.
fn target_push_dot(prefixed: &mut String) -> (r: ())
    ensures
        final(prefixed)@ == old(prefixed)@ + "."@,
{
    prefixed.append(".");
}

/// The package fragment of one object identifier arc, before the snake
/// casing.
fn component_package_chars(c: &ObjectIdentifierComponent) -> (r: Vec<char>)
    ensures
        r@ == spec_component_name(*c),
{
    match c {
        ObjectIdentifierComponent::NameForm(n) => named_component_chars(n),
        ObjectIdentifierComponent::NameAndNumberForm(n, _) => named_component_chars(n),
        ObjectIdentifierComponent::NumberForm(num) => {
            let mut out: Vec<char> = Vec::new();
            out.push('_');
            crate::text::push_decimal(*num, &mut out);
            proof {
                reveal_strlit("_");
                assert(out@ =~= "_"@ + dec_str(*num as nat));
            }
            out
        },
    }
}

/// A named arc: `-` becomes `_`, with a guard underscore where the name
/// does not begin alphabetically.
fn named_component_chars(n: &String) -> (r: Vec<char>)
    ensures
        r@ == (if n@.len() > 0 && !unicode_is_alphabetic(n@[0]) {
            "_"@ + dash_to_underscore(n@)
        } else {
            dash_to_underscore(n@)
        }),
{
    let chars = str_to_chars(n.as_str());
    let mut out: Vec<char> = Vec::new();
    proof {
        reveal_strlit("_");
    }
    if chars.len() > 0 {
        if !chars[0].is_alphabetic() {
            out.push('_');
        }
    }
    let ghost prefix = out@;
    proof {
        assert(n@.len() > 0 && !unicode_is_alphabetic(n@[0]) ==> prefix =~= "_"@);
        assert(!(n@.len() > 0 && !unicode_is_alphabetic(n@[0])) ==> prefix =~= Seq::<char>::empty());
    }
    let mut i: usize = 0;
    while i < chars.len()
        invariant
            i <= chars@.len(),
            chars@ == n@,
            out@ =~= prefix + dash_to_underscore(n@).take(i as int),
        decreases chars@.len() - i,
    {
        let c = chars[i];
        if c == '-' {
            out.push('_');
        } else {
            out.push(c);
        }
        i = i + 1;
    }
    proof {
        assert(out@ =~= prefix + dash_to_underscore(n@));
    }
    out
}

/// Snake-case a fragment with `_` as separator, over characters.
fn module_name_exec(part: &Vec<char>) -> (r: Vec<char>)
    ensures
        r@ == module_name_chars(part@, 0, false),
{
    let s = chars_to_string(part);
    let out = crate::gen::rust::RustCodeGenerator::rust_module_name(s.as_str());
    str_to_chars(out.as_str())
}

} // verus!
