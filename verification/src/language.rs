//! The language registry: which grammars the search can target.

use tree_sitter::Language as TsLanguage;
use vstd::prelude::*;

verus! {

/// A source language the search engine can parse.
#[derive(Clone, Copy, Debug, PartialEq, Eq, Structural)]
pub enum Language {
    Rust,
    Go,
    JS,
    TS,
    TSX,
    PHP,
    PHPOnly,
}

impl Language {
    /// The identifier used to select this language's file-type filter.
    pub open spec fn name_spec(self) -> Seq<char> {
        match self {
            Language::Rust => "rust"@,
            Language::Go => "go"@,
            Language::JS => "js"@,
            Language::TS | Language::TSX => "ts"@,
            Language::PHP | Language::PHPOnly => "php"@,
        }
    }

    pub fn name(self) -> (r: &'static str)
        ensures
            r@ == self.name_spec(),
    {
        match self {
            Language::Rust => "rust",
            Language::Go => "go",
            Language::JS => "js",
            Language::TS | Language::TSX => "ts",
            Language::PHP | Language::PHPOnly => "php",
        }
    }

    /// Relies on the grammar crates' `LANGUAGE` constants and on
    /// `tree_sitter::Language::from(LanguageFn)`: each arm hands the matching
    /// grammar to the parsing engine.
    #[verifier::external_body]
    pub fn ts_lang(self) -> TsLanguage {
        match self {
            Language::Rust => tree_sitter_rust::LANGUAGE,
            Language::Go => tree_sitter_go::LANGUAGE,
            Language::JS => tree_sitter_javascript::LANGUAGE,
            Language::TS => tree_sitter_typescript::LANGUAGE_TYPESCRIPT,
            Language::TSX => tree_sitter_typescript::LANGUAGE_TSX,
            Language::PHP => tree_sitter_php::LANGUAGE_PHP,
            Language::PHPOnly => tree_sitter_php::LANGUAGE_PHP_ONLY,
        }
        .into()
    }
}

/// The parsing engine's language handle, opaque to verification.
#[verifier::external_type_specification]
#[verifier::external_body]
pub struct ExTsLanguage(TsLanguage);

} // verus!
