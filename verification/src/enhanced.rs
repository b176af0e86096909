//! Enhanced documents (`enhanced/<id>.md`): the record, its kinds, and partial
//! updates guarded by compare-and-swap on the current file content.

use vstd::prelude::*;
use vstd::string::*;

use crate::error::StoreError;
use crate::meta::vec_contains_str;
use crate::order::{SortKey, int_str_le, lemma_int_str_le_total, lemma_int_str_le_transitive};
use crate::paths::{debug_quoted, debug_str};
use crate::record::{DeepCopy, Same};
use crate::strings::{concat, str_eq, str_lt};

verus! {

#[derive(Debug)]
pub struct EnhancedDoc {
    pub id: String,
    pub session_id: String,
    pub kind: String,
    pub title: String,
    pub template_id: String,
    pub sort_order: i32,
    pub markdown: String,
}

pub struct EnhancedDocView {
    pub id: Seq<char>,
    pub session_id: Seq<char>,
    pub kind: Seq<char>,
    pub title: Seq<char>,
    pub template_id: Seq<char>,
    pub sort_order: i32,
    pub markdown: Seq<char>,
}

impl DeepView for EnhancedDoc {
    type V = EnhancedDocView;

    open spec fn deep_view(&self) -> EnhancedDocView {
        EnhancedDocView {
            id: self.id@,
            session_id: self.session_id@,
            kind: self.kind@,
            title: self.title@,
            template_id: self.template_id@,
            sort_order: self.sort_order,
            markdown: self.markdown@,
        }
    }
}

impl Same for EnhancedDoc {
    fn same(&self, other: &Self) -> (r: bool) {
        self.id == other.id && self.session_id == other.session_id && self.kind == other.kind
            && self.title == other.title && self.template_id == other.template_id
            && self.sort_order == other.sort_order && self.markdown == other.markdown
    }
}

impl Clone for EnhancedDoc {
    fn clone(&self) -> (r: Self)
        ensures
            r == *self,
    {
        EnhancedDoc {
            id: self.id.clone(),
            session_id: self.session_id.clone(),
            kind: self.kind.clone(),
            title: self.title.clone(),
            template_id: self.template_id.clone(),
            sort_order: self.sort_order,
            markdown: self.markdown.clone(),
        }
    }
}

/// Session document order: `sort_order`, then id.
impl SortKey for EnhancedDoc {
    open spec fn spec_le(&self, other: &Self) -> bool {
        int_str_le(self.sort_order as int, self.id@, other.sort_order as int, other.id@)
    }

    proof fn lemma_le_total(a: &Self, b: &Self) {
        lemma_int_str_le_total(a.sort_order as int, a.id@, b.sort_order as int, b.id@);
    }

    proof fn lemma_le_transitive(a: &Self, b: &Self, c: &Self) {
        lemma_int_str_le_transitive(
            a.sort_order as int,
            a.id@,
            b.sort_order as int,
            b.id@,
            c.sort_order as int,
            c.id@,
        );
    }

    fn le(&self, other: &Self) -> (r: bool) {
        self.sort_order < other.sort_order || (self.sort_order == other.sort_order && (str_eq(
            self.id.as_str(),
            other.id.as_str(),
        ) || str_lt(self.id.as_str(), other.id.as_str())))
    }
}

/// The `Debug` rendering of a list of strings, as `format!("{list:?}")`.
pub uninterp spec fn debug_list(items: Seq<Seq<char>>) -> Seq<char>;

/// Calls std's `Debug` formatting for a list of strings. Claimed: the result
/// depends on the strings alone, named `debug_list`.
#[verifier::external_body]
pub(crate) fn debug_strings(items: &Vec<String>) -> (r: String)
    ensures
        r@ == debug_list(items.deep_view()),
{
    format!("{items:?}")
}

pub open spec fn kind_error_message(kind: Seq<char>, allowed: Seq<Seq<char>>) -> Seq<char> {
    "invalid enhanced doc kind "@ + debug_quoted(kind) + " (expected one of "@ + debug_list(allowed)
        + ")"@
}

/// A document kind must be one of the kinds the vault format knows.
pub fn validate_kind(kind: &str, allowed: &Vec<String>) -> (r: Result<(), StoreError>)
    ensures
        r is Ok <==> allowed.deep_view().contains(kind@),
        r matches Err(e) ==> e matches StoreError::Serialize(m) && m@ == kind_error_message(
            kind@,
            allowed.deep_view(),
        ),
{
    if vec_contains_str(allowed, kind) {
        Ok(())
    } else {
        let a = concat("invalid enhanced doc kind ", debug_str(kind).as_str());
        let b = concat(a.as_str(), " (expected one of ");
        let c = concat(b.as_str(), debug_strings(allowed).as_str());
        Err(StoreError::Serialize(concat(c.as_str(), ")")))
    }
}

/// Partial update of an existing enhanced doc: `None` means "leave as-is"; the
/// `expected_*` fields must match the current file content.
#[derive(Debug, Default)]
pub struct EnhancedDocPatch {
    pub kind: Option<String>,
    pub title: Option<String>,
    pub template_id: Option<String>,
    pub sort_order: Option<i32>,
    pub markdown: Option<String>,
    pub expected_title: Option<String>,
    pub expected_markdown: Option<String>,
}

pub open spec fn opt_or<T>(patch: Option<T>, current: T) -> T {
    match patch {
        Some(v) => v,
        None => current,
    }
}

pub open spec fn title_conflict_message(doc_id: Seq<char>, expected: Seq<char>, found: Seq<char>) -> Seq<char> {
    "enhanced doc "@ + doc_id + " title changed (expected "@ + debug_quoted(expected) + ", found "@
        + debug_quoted(found) + ")"@
}

pub open spec fn body_conflict_message(doc_id: Seq<char>) -> Seq<char> {
    "enhanced doc "@ + doc_id + " body changed since it was read"@
}

/// The doc after a patch. A title guard that differs from the current title is a
/// conflict, then a body guard that differs from the current body; an unknown
/// new kind is rejected; otherwise every given field replaces the current one.
pub fn apply_enhanced_patch(doc: EnhancedDoc, patch: EnhancedDocPatch, allowed_kinds: &Vec<String>) -> (r: Result<EnhancedDoc, StoreError>)
    ensures
        ({
            let d = doc.deep_view();
            let title_guard_fails = patch.expected_title matches Some(e) && e@ != d.title;
            let body_guard_fails = patch.expected_markdown matches Some(e) && e@ != d.markdown;
            let kind_bad = patch.kind matches Some(k) && !allowed_kinds.deep_view().contains(k@);
            if title_guard_fails {
                r matches Err(StoreError::Conflict(m)) && m@ == title_conflict_message(
                    d.id,
                    patch.expected_title.unwrap()@,
                    d.title,
                )
            } else if body_guard_fails {
                r matches Err(StoreError::Conflict(m)) && m@ == body_conflict_message(d.id)
            } else if kind_bad {
                r matches Err(StoreError::Serialize(m)) && m@ == kind_error_message(
                    patch.kind.unwrap()@,
                    allowed_kinds.deep_view(),
                )
            } else {
                r matches Ok(n) && n.deep_view() == (EnhancedDocView {
                    kind: opt_or(patch.kind.deep_view(), d.kind),
                    title: opt_or(patch.title.deep_view(), d.title),
                    template_id: opt_or(patch.template_id.deep_view(), d.template_id),
                    sort_order: opt_or(patch.sort_order, d.sort_order),
                    markdown: opt_or(patch.markdown.deep_view(), d.markdown),
                    ..d
                })
            }
        }),
{
    let ghost d0 = doc.deep_view();
    if let Some(expected) = &patch.expected_title {
        if doc.title != *expected {
            let a = concat("enhanced doc ", doc.id.as_str());
            let b = concat(a.as_str(), " title changed (expected ");
            let c = concat(b.as_str(), debug_str(expected.as_str()).as_str());
            let e = concat(c.as_str(), ", found ");
            let f = concat(e.as_str(), debug_str(doc.title.as_str()).as_str());
            return Err(StoreError::Conflict(concat(f.as_str(), ")")));
        }
    }
    if let Some(expected) = &patch.expected_markdown {
        if doc.markdown != *expected {
            let a = concat("enhanced doc ", doc.id.as_str());
            return Err(StoreError::Conflict(concat(a.as_str(), " body changed since it was read")));
        }
    }
    let EnhancedDocPatch { kind, title, template_id, sort_order, markdown, expected_title: _, expected_markdown: _ } = patch;
    let mut doc = doc;
    if let Some(kind) = kind {
        match validate_kind(kind.as_str(), allowed_kinds) {
            Ok(()) => {},
            Err(e) => return Err(e),
        }
        doc.kind = kind;
    }
    if let Some(title) = title {
        doc.title = title;
    }
    if let Some(template_id) = template_id {
        doc.template_id = template_id;
    }
    if let Some(sort_order) = sort_order {
        doc.sort_order = sort_order;
    }
    if let Some(markdown) = markdown {
        doc.markdown = markdown;
    }
    Ok(doc)
}


impl DeepCopy for EnhancedDoc {
    fn deep_copy(&self) -> (r: Self) {
        self.clone()
    }
}

} // verus!
