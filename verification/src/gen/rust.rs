//! The Rust naming rules of the code generator: how ASN.1 identifiers
//! become Rust field, variant and module names, and the generator's
//! configuration switches.

use crate::text::{
    char_to_lowercase, char_to_uppercase, chars_eq, chars_to_string, str_to_chars,
    unicode_is_lowercase, unicode_is_numeric, unicode_is_uppercase, unicode_lower, unicode_upper,
};
use vstd::prelude::*;

verus! {

/// `-` becomes `_`, every other character stays.
pub open spec fn dash_to_underscore(s: Seq<char>) -> Seq<char> {
    s.map_values(
        |c: char|
            if c == '-' {
                '_'
            } else {
                c
            },
    )
}

/// The Rust keywords that a field name must not collide with.
pub open spec fn is_rust_keyword(s: Seq<char>) -> bool {
    ||| s == "use"@
    ||| s == "mod"@
    ||| s == "const"@
    ||| s == "type"@
    ||| s == "pub"@
    ||| s == "enum"@
    ||| s == "struct"@
    ||| s == "impl"@
    ||| s == "trait"@
}

/// The upper-camel-case form: `-` and `_` are dropped and the following
/// character is uppercased, as is the first.
pub open spec fn variant_name_chars(s: Seq<char>, next_upper: bool) -> Seq<char>
    decreases s.len(),
{
    if s.len() == 0 {
        Seq::empty()
    } else if next_upper {
        unicode_upper(s[0]) + variant_name_chars(s.skip(1), false)
    } else if s[0] == '-' || s[0] == '_' {
        variant_name_chars(s.skip(1), true)
    } else {
        seq![s[0]] + variant_name_chars(s.skip(1), false)
    }
}

/// The lower-snake-case form: uppercase characters are lowercased, with an
/// underscore before a new word; `-` becomes `_`.
pub open spec fn module_name_chars(s: Seq<char>, i: int, prev_lowered: bool) -> Seq<char>
    decreases s.len() - i,
{
    if i < 0 || i >= s.len() {
        Seq::empty()
    } else if unicode_is_uppercase(s[i]) {
        let sep: Seq<char> = if i > 0 && (!prev_lowered || (i + 1 < s.len() && unicode_is_lowercase(
            s[i + 1],
        ))) {
            seq!['_']
        } else {
            Seq::empty()
        };
        sep + unicode_lower(s[i]) + module_name_chars(s, i + 1, true)
    } else if s[i] == '-' {
        seq!['_'] + module_name_chars(s, i + 1, false)
    } else {
        seq![s[i]] + module_name_chars(s, i + 1, false)
    }
}

/// Digit grouping: after every position that completes a group of three, an
/// underscore follows a numeric character. The initial phase aligns the
/// groups to the end of the string.
pub open spec fn grouped_digits(s: Seq<char>, i: int, pos: int) -> Seq<char>
    decreases s.len() - i,
{
    if i < 0 || i >= s.len() {
        Seq::empty()
    } else {
        let sep: Seq<char> = if (pos + 1) % 3 == 0 && unicode_is_numeric(s[i]) {
            seq!['_']
        } else {
            Seq::empty()
        };
        seq![s[i]] + sep + grouped_digits(s, i + 1, (pos + 1) % 3)
    }
}

/// The generator for Rust types from schema definitions: its configuration
/// switches and the naming rules every emitted item follows.
pub struct RustCodeGenerator {
    global_derives: Vec<String>,
    direct_field_access: bool,
    getter_and_setter: bool,
}

impl RustCodeGenerator {
    /// The derives added to every generated type.
    pub closed spec fn derives(&self) -> Seq<Seq<char>> {
        self.global_derives@.map_values(|s: String| s@)
    }

    /// Whether generated fields are `pub`.
    pub closed spec fn direct_access(&self) -> bool {
        self.direct_field_access
    }

    /// Whether generated fields carry getters and setters.
    pub closed spec fn accessors(&self) -> bool {
        self.getter_and_setter
    }

    /// Add a derive to every type the generator will emit.
    pub fn add_global_derive(&mut self, derive: String) -> (r: ())
        requires
            old(self).derives().len() + 1 <= usize::MAX,
        ensures
            final(self).derives() == old(self).derives().push(derive@),
            final(self).direct_access() == old(self).direct_access(),
            final(self).accessors() == old(self).accessors(),
    {
        self.global_derives.push(derive);
        proof {
            assert(final(self).derives() =~= old(self).derives().push(derive@));
        }
    }

    /// Whether generated fields are `pub`.
    pub fn fields_are_pub(&self) -> (r: bool)
        ensures
            r == self.direct_access(),
    {
        self.direct_field_access
    }

    /// Choose whether generated fields are `pub`.
    pub fn set_fields_pub(&mut self, allow: bool) -> (r: ())
        ensures
            final(self).direct_access() == allow,
            final(self).derives() == old(self).derives(),
            final(self).accessors() == old(self).accessors(),
    {
        self.direct_field_access = allow;
    }

    /// Whether generated fields carry getters and setters.
    pub fn fields_have_getter_and_setter(&self) -> (r: bool)
        ensures
            r == self.accessors(),
    {
        self.getter_and_setter
    }

    /// Choose whether generated fields carry getters and setters.
    pub fn set_fields_have_getter_and_setter(&mut self, allow: bool) -> (r: ())
        ensures
            final(self).accessors() == allow,
            final(self).derives() == old(self).derives(),
            final(self).direct_access() == old(self).direct_access(),
    {
        self.getter_and_setter = allow;
    }

    /// A field name: `-` becomes `_`, and a name that collides with a Rust
    /// keyword gets a trailing underscore when the check is asked for.
    pub fn rust_field_name(name: &str, check_for_keywords: bool) -> (r: String)
        ensures
            r@ == if check_for_keywords && is_rust_keyword(dash_to_underscore(name@)) {
                dash_to_underscore(name@) + "_"@
            } else {
                dash_to_underscore(name@)
            },
    {
        let chars = str_to_chars(name);
        let mut out: Vec<char> = Vec::new();
        let mut i: usize = 0;
        while i < chars.len()
            invariant
                i <= chars@.len(),
                chars@ == name@,
                out@ =~= dash_to_underscore(name@).take(i as int),
            decreases chars@.len() - i,
        {
            let c = chars[i];
            if c == '-' {
                out.push('_');
            } else {
                out.push(c);
            }
            i = i + 1;
        }
        proof {
            assert(out@ =~= dash_to_underscore(name@));
        }
        if check_for_keywords {
            let is_kw = Self::is_keyword(&out);
            if is_kw {
                out.push('_');
                let r = chars_to_string(&out);
                proof {
                    reveal_strlit("_");
                    assert(r@ =~= dash_to_underscore(name@) + "_"@);
                }
                return r;
            }
        }
        chars_to_string(&out)
    }

    /// Whether the characters spell a Rust keyword.
    fn is_keyword(chars: &Vec<char>) -> (r: bool)
        ensures
            r == is_rust_keyword(chars@),
    {
        let kws = ["use", "mod", "const", "type", "pub", "enum", "struct", "impl", "trait"];
        let mut i: usize = 0;
        while i < 9
            invariant
                i <= 9,
                kws@.len() == 9,
                kws@[0]@ == "use"@ && kws@[1]@ == "mod"@ && kws@[2]@ == "const"@ && kws@[3]@
                    == "type"@ && kws@[4]@ == "pub"@ && kws@[5]@ == "enum"@ && kws@[6]@
                    == "struct"@ && kws@[7]@ == "impl"@ && kws@[8]@ == "trait"@,
                forall|j: int| 0 <= j < i ==> chars@ != kws@[j]@,
            decreases 9 - i,
        {
            let kw_chars = str_to_chars(kws[i]);
            if chars_eq(chars, &kw_chars) {
                return true;
            }
            i = i + 1;
        }
        false
    }

    /// A variant name: upper camel case.
    pub fn rust_variant_name(name: &str) -> (r: String)
        ensures
            r@ == variant_name_chars(name@, true),
    {
        let chars = str_to_chars(name);
        let mut out: Vec<char> = Vec::new();
        let mut next_upper = true;
        let mut i: usize = 0;
        proof {
            assert(name@.skip(0) =~= name@);
        }
        while i < chars.len()
            invariant
                i <= chars@.len(),
                chars@ == name@,
                variant_name_chars(name@, true) == out@ + variant_name_chars(
                    name@.skip(i as int),
                    next_upper,
                ),
            decreases chars@.len() - i,
        {
            let c = chars[i];
            proof {
                assert(name@.skip(i as int)[0] == name@[i as int]);
                assert(name@.skip(i as int).skip(1) =~= name@.skip(i + 1));
            }
            if next_upper {
                let mut up = char_to_uppercase(c);
                out.append(&mut up);
                next_upper = false;
            } else if c == '-' || c == '_' {
                next_upper = true;
            } else {
                out.push(c);
            }
            i = i + 1;
        }
        proof {
            assert(name@.skip(chars@.len() as int) =~= Seq::<char>::empty());
            assert(out@ =~= variant_name_chars(name@, true));
        }
        chars_to_string(&out)
    }

    /// A module name: lower snake case.
    pub fn rust_module_name(name: &str) -> (r: String)
        ensures
            r@ == module_name_chars(name@, 0, false),
    {
        let chars = str_to_chars(name);
        let mut out: Vec<char> = Vec::new();
        let mut prev_lowered = false;
        let mut i: usize = 0;
        while i < chars.len()
            invariant
                i <= chars@.len(),
                chars@ == name@,
                i == 0 ==> out@.len() == 0 && prev_lowered == false,
                i > 0 ==> out@.len() > 0,
                module_name_chars(name@, 0, false) == out@ + module_name_chars(
                    name@,
                    i as int,
                    prev_lowered,
                ),
            decreases chars@.len() - i,
        {
            let c = chars[i];
            let mut lowered = false;
            if c.is_uppercase() {
                if i > 0 {
                    if !prev_lowered {
                        out.push('_');
                    } else if i + 1 < chars.len() {
                        if chars[i + 1].is_lowercase() {
                            out.push('_');
                        }
                    }
                }
                let mut low = char_to_lowercase(c);
                out.append(&mut low);
                lowered = true;
            } else if c == '-' {
                out.push('_');
            } else {
                out.push(c);
            }
            prev_lowered = lowered;
            i = i + 1;
        }
        proof {
            assert(out@ =~= module_name_chars(name@, 0, false));
        }
        chars_to_string(&out)
    }

    /// Group the digits of a number string by threes with underscores.
    pub fn format_number_nicely(string: &str) -> (r: String)
        requires
            string@.len() >= 1,
        ensures
            r@ == grouped_digits(
                string@,
                0,
                (3 - (string@.len() as int) % 3) % 3,
            ).drop_last(),
    {
        let chars = str_to_chars(string);
        let n = chars.len();
        let mut out: Vec<char> = Vec::new();
        let mut pos: usize = (3 - n % 3) % 3;
        let mut i: usize = 0;
        while i < n
            invariant
                i <= n,
                n == chars@.len(),
                n >= 1,
                chars@ == string@,
                pos < 3,
                i == 0 ==> pos == (3 - (string@.len() as int) % 3) % 3,
                grouped_digits(string@, 0, (3 - (string@.len() as int) % 3) % 3) == out@
                    + grouped_digits(string@, i as int, pos as int),
            decreases n - i,
        {
            let c = chars[i];
            out.push(c);
            pos = (pos + 1) % 3;
            if pos == 0 && c.is_numeric() {
                out.push('_');
            }
            i = i + 1;
        }
        proof {
            assert(out@ =~= grouped_digits(string@, 0, (3 - (string@.len() as int) % 3) % 3));
            lemma_grouped_digits_len(string@, 0, ((3 - (string@.len() as int) % 3) % 3));
        }
        let _ = out.pop();
        chars_to_string(&out)
    }
}

/// A grouped string is at least as long as what it groups.
proof fn lemma_grouped_digits_len(s: Seq<char>, i: int, pos: int)
    requires
        0 <= i,
    ensures
        grouped_digits(s, i, pos).len() >= s.len() - i,
    decreases s.len() - i,
{
    if 0 <= i < s.len() {
        lemma_grouped_digits_len(s, i + 1, (pos + 1) % 3);
        assert(grouped_digits(s, i, pos).len() >= 1 + grouped_digits(s, i + 1, (pos + 1) % 3).len());
    }
}

impl Default for RustCodeGenerator {
    /// The configuration the generator starts from: no extra derives,
    /// direct field access, no accessors.
    fn default() -> (r: Self)
        ensures
            r.derives().len() == 0,
            r.direct_access() == true,
            r.accessors() == false,
    {
        RustCodeGenerator {
            global_derives: Vec::new(),
            direct_field_access: true,
            getter_and_setter: false,
        }
    }
}

} // verus!
