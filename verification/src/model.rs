//! The concepts of a knowledge bundle and the relationships between them.

use vstd::prelude::*;
use crate::text::{same, texts};

verus! {

/// What sort of thing a concept is.
#[derive(Clone, Copy, Debug, PartialEq, Eq, Structural)]
pub enum ConceptKind {
    Package,
    Module,
    Document,
    Struct,
    Class,
    Interface,
    Trait,
    Function,
    Method,
    /// Any other kind of declaration, by the number its parser gives it.
    Other(u32),
}

/// The language a concept was found in.
#[derive(Clone, Copy, Debug, PartialEq, Eq, Structural)]
pub enum Language {
    Rust,
    Python,
    Go,
    TypeScript,
    JavaScript,
    Php,
    Dita,
    /// Any other language, by the number its parser gives it.
    Other(u32),
}

/// How one concept relates to another.
#[derive(Clone, Copy, Debug, PartialEq, Eq, Structural)]
pub enum RelationKind {
    Imports,
    Calls,
    CalledBy,
    Implements,
    Inherits,
    DependsOn,
    MemberOf,
}

/// How sure the resolver of a relationship was.
#[derive(Clone, Copy, Debug, PartialEq, Eq, Structural)]
pub enum Confidence {
    Exact,
    Semantic,
}

/// Where a concept was declared.
#[derive(Debug)]
pub struct Location {
    pub file: String,
    pub start_line: usize,
    pub end_line: usize,
}

/// One relationship of a concept, with who found it.
#[derive(Debug)]
pub struct Relationship {
    pub kind: RelationKind,
    pub target: String,
    pub target_display: String,
    pub resolved_by: String,
    pub confidence: Confidence,
    pub resolver_version: Option<String>,
}

/// A declaration, file, package or document of the project.
#[derive(Debug)]
pub struct Concept {
    pub id: String,
    pub kind: ConceptKind,
    pub language: Language,
    pub name: String,
    pub qualified_name: String,
    pub description: Option<String>,
    pub location: Location,
    pub signature: Option<String>,
    pub tags: Vec<String>,
    pub is_public: bool,
    /// When its page was generated, as the page says it.
    pub generated_at: Option<String>,
    pub relationships: Vec<Relationship>,
}

/// The text inside, if there is any.
pub open spec fn opt_text(o: Option<String>) -> Option<Seq<char>> {
    match o {
        Some(s) => Some(s@),
        None => None,
    }
}

/// A relationship as a value.
#[verifier::ext_equal]
pub struct RelationshipView {
    pub kind: RelationKind,
    pub target: Seq<char>,
    pub target_display: Seq<char>,
    pub resolved_by: Seq<char>,
    pub confidence: Confidence,
    pub resolver_version: Option<Seq<char>>,
}

impl View for Relationship {
    type V = RelationshipView;

    open spec fn view(&self) -> RelationshipView {
        RelationshipView {
            kind: self.kind,
            target: self.target@,
            target_display: self.target_display@,
            resolved_by: self.resolved_by@,
            confidence: self.confidence,
            resolver_version: opt_text(self.resolver_version),
        }
    }
}

/// The relationships as values.
pub open spec fn rel_views(v: Seq<Relationship>) -> Seq<RelationshipView> {
    v.map_values(|r: Relationship| r@)
}

/// A concept as a value.
#[verifier::ext_equal]
pub struct ConceptView {
    pub id: Seq<char>,
    pub kind: ConceptKind,
    pub language: Language,
    pub name: Seq<char>,
    pub qualified_name: Seq<char>,
    pub description: Option<Seq<char>>,
    pub file: Seq<char>,
    pub start_line: usize,
    pub end_line: usize,
    pub signature: Option<Seq<char>>,
    pub tags: Seq<Seq<char>>,
    pub is_public: bool,
    pub generated_at: Option<Seq<char>>,
    pub relationships: Seq<RelationshipView>,
}

impl View for Concept {
    type V = ConceptView;

    open spec fn view(&self) -> ConceptView {
        ConceptView {
            id: self.id@,
            kind: self.kind,
            language: self.language,
            name: self.name@,
            qualified_name: self.qualified_name@,
            description: opt_text(self.description),
            file: self.location.file@,
            start_line: self.location.start_line,
            end_line: self.location.end_line,
            signature: opt_text(self.signature),
            tags: texts(self.tags@),
            is_public: self.is_public,
            generated_at: opt_text(self.generated_at),
            relationships: rel_views(self.relationships@),
        }
    }
}

/// The concepts as values.
pub open spec fn concept_views(v: Seq<Concept>) -> Seq<ConceptView> {
    v.map_values(|c: Concept| c@)
}

/// A copy of the text, if there is any.
pub fn copy_opt(o: &Option<String>) -> (r: Option<String>)
    ensures
        opt_text(r) == opt_text(*o),
{
    match o {
        Some(s) => Some(s.clone()),
        None => None,
    }
}

/// Whether both are missing or both are the same text.
pub fn same_opt(a: &Option<String>, b: &Option<String>) -> (r: bool)
    ensures
        r == (opt_text(*a) == opt_text(*b)),
{
    match (a, b) {
        (Some(x), Some(y)) => same(x.as_str(), y.as_str()),
        (None, None) => true,
        _ => false,
    }
}

/// A copy of the texts.
pub fn copy_texts(v: &Vec<String>) -> (r: Vec<String>)
    ensures
        texts(r@) == texts(v@),
{
    let mut out: Vec<String> = Vec::new();
    for i in 0..v.len()
        invariant
            out@.len() == i,
            forall|k: int| 0 <= k < i ==> out@[k]@ == v@[k]@,
    {
        out.push(v[i].clone());
    }
    assert(texts(out@) =~= texts(v@));
    out
}

impl Relationship {
    /// A relationship that the syntax tree alone settled.
    pub fn new(kind: RelationKind, target: &str, target_display: &str) -> (r: Relationship)
        ensures
            r@ == (RelationshipView {
                kind,
                target: target@,
                target_display: target_display@,
                resolved_by: "tree-sitter"@,
                confidence: Confidence::Exact,
                resolver_version: None,
            }),
    {
        Relationship {
            kind,
            target: target.to_owned(),
            target_display: target_display.to_owned(),
            resolved_by: "tree-sitter".to_owned(),
            confidence: Confidence::Exact,
            resolver_version: None,
        }
    }
}

impl Clone for Relationship {
    fn clone(&self) -> (r: Relationship)
        ensures
            r@ == self@,
    {
        Relationship {
            kind: self.kind,
            target: self.target.clone(),
            target_display: self.target_display.clone(),
            resolved_by: self.resolved_by.clone(),
            confidence: self.confidence,
            resolver_version: copy_opt(&self.resolver_version),
        }
    }
}

/// A copy of the relationships.
pub fn copy_relationships(v: &Vec<Relationship>) -> (r: Vec<Relationship>)
    ensures
        rel_views(r@) == rel_views(v@),
{
    let mut out: Vec<Relationship> = Vec::new();
    for i in 0..v.len()
        invariant
            out@.len() == i,
            forall|k: int| 0 <= k < i ==> (#[trigger] out@[k])@ == v@[k]@,
    {
        out.push(v[i].clone());
    }
    assert(rel_views(out@) =~= rel_views(v@));
    out
}

impl Clone for Concept {
    fn clone(&self) -> (r: Concept)
        ensures
            r@ == self@,
    {
        Concept {
            id: self.id.clone(),
            kind: self.kind,
            language: self.language,
            name: self.name.clone(),
            qualified_name: self.qualified_name.clone(),
            description: copy_opt(&self.description),
            location: Location {
                file: self.location.file.clone(),
                start_line: self.location.start_line,
                end_line: self.location.end_line,
            },
            signature: copy_opt(&self.signature),
            tags: copy_texts(&self.tags),
            is_public: self.is_public,
            generated_at: copy_opt(&self.generated_at),
            relationships: copy_relationships(&self.relationships),
        }
    }
}

}
