//! Compiled path patterns.
use vstd::prelude::*;
use crate::text;
use crate::text::Text;

verus! {

#[verifier::external_type_specification]
#[verifier::external_body]
pub struct ExGlobSet(globset::GlobSet);

/// A pattern and the `globset` matcher that was built from it. [`compile`] is
/// the only function that makes one.
#[derive(Debug)]
pub struct CompiledGlob {
    pattern: String,
    literal_separator: bool,
    backslash_escape: bool,
    set: globset::GlobSet,
}

impl CompiledGlob {
    pub closed spec fn pattern(self) -> Text {
        self.pattern@
    }

    /// `*` and `?` match no separator.
    pub closed spec fn literal_separator(self) -> bool {
        self.literal_separator
    }

    /// A backslash takes the meaning from the character after it.
    pub closed spec fn backslash_escape(self) -> bool {
        self.backslash_escape
    }
}

/// The message of the error for a pattern that cannot be compiled.
pub uninterp spec fn glob_error(
    pattern: Text,
    literal_separator: bool,
    backslash_escape: bool,
) -> Option<Text>;

/// A pattern matches a path.
pub uninterp spec fn glob_matches(
    pattern: Text,
    literal_separator: bool,
    backslash_escape: bool,
    path: Text,
) -> bool;

/// `globset::GlobBuilder::build` and `globset::GlobSet::new` on that one glob.
/// The contract names the error and says that what was built stands for the
/// pattern and the options.
#[verifier::external_body]
pub(crate) fn compile(
    pattern: &str,
    literal_separator: bool,
    backslash_escape: bool,
) -> (r: Result<CompiledGlob, String>)
    ensures
        match r {
            Ok(glob) => glob_error(pattern@, literal_separator, backslash_escape) is None
                && glob.pattern() == pattern@ && glob.literal_separator() == literal_separator
                && glob.backslash_escape() == backslash_escape,
            Err(message) => glob_error(pattern@, literal_separator, backslash_escape) == Some(
                message@,
            ),
        },
{
    let built = globset::GlobBuilder::new(pattern)
        .literal_separator(literal_separator)
        .backslash_escape(backslash_escape)
        .build()
        .and_then(|glob| globset::GlobSet::new([glob]));
    match built {
        Ok(set) => Ok(
            CompiledGlob { pattern: pattern.to_owned(), literal_separator, backslash_escape, set },
        ),
        Err(error) => Err(error.to_string()),
    }
}

/// A text that stands for itself in a pattern: none of its characters has a
/// meaning there.
pub open spec fn literal(name: Text) -> bool {
    name.len() > 0 && forall|i: int|
        0 <= i < name.len() ==> {
            let c = #[trigger] name[i];
            c != '*' && c != '?' && c != '[' && c != ']' && c != '{' && c != '}' && c != ','
                && c != '\\'
        }
}

/// Some directory of a path has the name, and the path stands below it.
pub open spec fn has_directory(path: Text, name: Text) -> bool {
    text::has_prefix(path, name + "/"@) || exists|i: int|
        0 <= i <= path.len() && #[trigger] text::has_prefix(path.skip(i), "/"@ + name + "/"@)
}

/// `globset::GlobSet::is_match`. The contract names whether the pattern that
/// the set was built from matches, and says of a literal name, and of a path
/// without a backslash: the name followed by `/**` matches exactly what stands
/// below it, and between `**/` and `/**` exactly what stands below a directory
/// of that name at any depth.
#[verifier::external_body]
pub(crate) fn is_match(glob: &CompiledGlob, path: &str) -> (r: bool)
    ensures
        r == glob_matches(
            glob.pattern(),
            glob.literal_separator(),
            glob.backslash_escape(),
            path@,
        ),
        !path@.contains('\\') ==> forall|name: Text| #[trigger]
            literal(name) && glob.pattern() == name + "/**"@ ==> r == text::has_prefix(
                path@,
                name + "/"@,
            ),
        !path@.contains('\\') ==> forall|name: Text| #[trigger]
            literal(name) && glob.pattern() == "**/"@ + name + "/**"@ ==> r == has_directory(
                path@,
                name,
            ),
{
    glob.set.is_match(path)
}

} // verus!
