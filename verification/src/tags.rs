//! The vault-root tag registry (`tags.json`).

use vstd::prelude::*;
use vstd::string::*;

use crate::error::StoreError;
use crate::order::{SortKey, lemma_str_pair_le_total, lemma_str_pair_le_transitive, str_pair_le};
use crate::record::{DeepCopy, Same};
use crate::strings::{str_eq, str_lt, to_owned_string};

verus! {

/// One tag. The id is the normalized (trimmed, `#`-stripped, lowercased) name
/// itself, so two names normalizing identically are the same tag.
#[derive(Debug)]
pub struct TagItem {
    pub id: String,
    pub name: String,
}

pub struct TagItemView {
    pub id: Seq<char>,
    pub name: Seq<char>,
}

impl DeepView for TagItem {
    type V = TagItemView;

    open spec fn deep_view(&self) -> TagItemView {
        TagItemView { id: self.id@, name: self.name@ }
    }
}

impl Same for TagItem {
    fn same(&self, other: &Self) -> (r: bool) {
        self.id == other.id && self.name == other.name
    }
}

impl Clone for TagItem {
    fn clone(&self) -> (r: Self)
        ensures
            r == *self,
    {
        TagItem { id: self.id.clone(), name: self.name.clone() }
    }
}

impl DeepCopy for TagItem {
    fn deep_copy(&self) -> (r: Self) {
        self.clone()
    }
}

/// Tag list order: name, then id.
impl SortKey for TagItem {
    open spec fn spec_le(&self, other: &Self) -> bool {
        str_pair_le(self.name@, self.id@, other.name@, other.id@)
    }

    proof fn lemma_le_total(a: &Self, b: &Self) {
        lemma_str_pair_le_total(a.name@, a.id@, b.name@, b.id@);
    }

    proof fn lemma_le_transitive(a: &Self, b: &Self, c: &Self) {
        lemma_str_pair_le_transitive(a.name@, a.id@, b.name@, b.id@, c.name@, c.id@);
    }

    fn le(&self, other: &Self) -> (r: bool) {
        if str_lt(self.name.as_str(), other.name.as_str()) {
            true
        } else if str_eq(self.name.as_str(), other.name.as_str()) {
            str_eq(self.id.as_str(), other.id.as_str()) || str_lt(self.id.as_str(), other.id.as_str())
        } else {
            false
        }
    }
}

/// The outcome of registering a tag name.
#[derive(Debug)]
pub enum EnsuredTag {
    /// A tag with that normalized name is already registered (returned untouched).
    Existing(TagItem),
    /// A new tag to append to the registry.
    Created(TagItem),
}

/// The registry is append-only: an existing tag is returned untouched,
/// otherwise it is created under its normalized name. `normalized` is `None`
/// when nothing was left of the raw name.
pub fn ensure_tag_plan(tags: &Vec<TagItem>, normalized: Option<String>) -> (r: Result<EnsuredTag, StoreError>)
    ensures
        normalized is None <==> r is Err,
        r matches Err(e) ==> e matches StoreError::Io(m) && m@ == "tag name cannot be empty"@,
        r matches Ok(EnsuredTag::Existing(t)) ==> exists|i: int|
            0 <= i < tags@.len() && tags@[i] == t && t.id@ == normalized.unwrap()@ && forall|j: int|
                0 <= j < i ==> tags@[j].id@ != normalized.unwrap()@,
        r matches Ok(EnsuredTag::Created(t)) ==> t.id@ == normalized.unwrap()@ && t.name@
            == normalized.unwrap()@ && forall|j: int| 0 <= j < tags@.len() ==> tags@[j].id@ != normalized.unwrap()@,
{
    let name = match normalized {
        Some(name) => name,
        None => return Err(StoreError::Io(to_owned_string("tag name cannot be empty"))),
    };
    let mut i: usize = 0;
    while i < tags.len()
        invariant
            i <= tags.len(),
            normalized matches Some(n) && n@ == name@,
            forall|j: int| 0 <= j < i ==> tags@[j].id@ != name@,
        decreases tags.len() - i,
    {
        if tags[i].id == name {
            return Ok(EnsuredTag::Existing(tags[i].clone()));
        }
        i = i + 1;
    }
    Ok(EnsuredTag::Created(TagItem { id: name.clone(), name }))
}

} // verus!
