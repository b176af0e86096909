//! The vault-root people registry: human-readable person ids and the
//! create-or-reuse rule for speaker names.

use vstd::prelude::*;
use vstd::set_lib::lemma_len_subset;
use vstd::string::*;

use crate::error::StoreError;
use crate::record::{DeepCopy, Same};
use crate::order::{SortKey, lemma_str_pair_le_total, lemma_str_pair_le_transitive, str_pair_le};
use crate::strings::{
    ascii_lower, ascii_lower_char, concat, decimal, digit_char, is_ascii_seq, lower_of, push_char, str_eq,
    str_lt, to_lowercase, to_owned_string, trim, unicode_lowercase, unicode_trim, u64_to_decimal,
};

verus! {

/// One person. The id doubles as the value speaker hints store, so it is
/// generated human-readable (`bob_peters`).
#[derive(Debug)]
pub struct PersonItem {
    pub id: String,
    pub name: String,
}

impl Clone for PersonItem {
    fn clone(&self) -> (r: Self)
        ensures
            r == *self,
    {
        PersonItem { id: self.id.clone(), name: self.name.clone() }
    }
}

pub struct PersonItemView {
    pub id: Seq<char>,
    pub name: Seq<char>,
}

impl DeepView for PersonItem {
    type V = PersonItemView;

    open spec fn deep_view(&self) -> PersonItemView {
        PersonItemView { id: self.id@, name: self.name@ }
    }
}

impl Same for PersonItem {
    fn same(&self, other: &Self) -> (r: bool) {
        self.id == other.id && self.name == other.name
    }
}

pub open spec fn is_ascii_alnum(c: char) -> bool {
    ('a' <= c && c <= 'z') || ('A' <= c && c <= 'Z') || ('0' <= c && c <= '9')
}

/// The slug built so far and whether a separator is pending, after reading `s`.
pub open spec fn slug_fold(s: Seq<char>) -> (Seq<char>, bool)
    decreases s.len(),
{
    if s.len() == 0 {
        (Seq::<char>::empty(), false)
    } else {
        let prev = slug_fold(s.drop_last());
        let c = s.last();
        if is_ascii_alnum(c) {
            let base = if prev.1 && prev.0.len() > 0 {
                prev.0.push('_')
            } else {
                prev.0
            };
            (base.push(c), false)
        } else {
            (prev.0, true)
        }
    }
}

/// The runs of ASCII letters and digits of the lowercased name, joined by `_`;
/// `person` when there are none.
pub open spec fn person_slug(name: Seq<char>) -> Seq<char> {
    let s = slug_fold(lower_of(name)).0;
    if s.len() == 0 {
        "person"@
    } else {
        s
    }
}

fn is_ascii_alnum_exec(c: char) -> (r: bool)
    ensures
        r == is_ascii_alnum(c),
{
    ('a' <= c && c <= 'z') || ('A' <= c && c <= 'Z') || ('0' <= c && c <= '9')
}

pub fn person_id_slug(name: &str) -> (r: String)
    ensures
        r@ == person_slug(name@),
        slug_shaped(r@),
        no_ascii_upper(r@),
        person_slug(r@) == r@,
{
    let lower = to_lowercase(name);
    proof {
        assert(no_ascii_upper(lower@));
        assert(lower_of(name@) == lower@);
        lemma_slug_fold_shape(lower@);
        lemma_person_slug_shape(name@);
        reveal_strlit("person");
        if slug_fold(lower@).0.len() == 0 {
            assert(person_slug(name@) =~= seq!['p', 'e', 'r', 's', 'o', 'n']);
        }
        assert(no_ascii_upper(person_slug(name@)));
        lemma_person_slug_idempotent(name@);
    }
    let n = lower.unicode_len();
    let mut slug = String::new();
    let mut pending = false;
    let mut i: usize = 0;
    assert(lower@.subrange(0, 0) =~= Seq::<char>::empty());
    while i < n
        invariant
            n == lower@.len(),
            i <= n,
            (slug@, pending) == slug_fold(lower@.subrange(0, i as int)),
        decreases n - i,
    {
        let c = lower.get_char(i);
        let ghost prefix = lower@.subrange(0, i + 1);
        assert(prefix.drop_last() =~= lower@.subrange(0, i as int));
        assert(prefix.last() == c);
        if is_ascii_alnum_exec(c) {
            if pending && slug.unicode_len() > 0 {
                push_char(&mut slug, '_');
            }
            pending = false;
            push_char(&mut slug, c);
        } else {
            pending = true;
        }
        i = i + 1;
    }
    assert(lower@.subrange(0, n as int) =~= lower@);
    if slug.unicode_len() == 0 {
        to_owned_string("person")
    } else {
        slug
    }
}

pub open spec fn person_ids(existing: Seq<PersonItem>) -> Seq<Seq<char>> {
    existing.map_values(|p: PersonItem| p.id@)
}

/// `base_counter`.
pub open spec fn suffixed(base: Seq<char>, counter: nat) -> Seq<char> {
    base + "_"@ + decimal(counter)
}

/// The id given to a new person: the slug if free, else the slug with the
/// smallest counter (from 2) whose suffixed form is free.
pub open spec fn is_unique_person_id(existing: Seq<PersonItem>, name: Seq<char>, id: Seq<char>) -> bool {
    let base = person_slug(name);
    let ids = person_ids(existing);
    if !ids.contains(base) {
        id == base
    } else {
        exists|counter: nat|
            counter >= 2 && id == suffixed(base, counter) && !ids.contains(id) && forall|j: nat|
                2 <= j < counter ==> ids.contains(#[trigger] suffixed(base, j))
    }
}

pub proof fn lemma_decimal_len(n: nat)
    ensures
        decimal(n).len() >= 1,
    decreases n,
{
    if n >= 10 {
        lemma_decimal_len(n / 10);
    }
}

pub proof fn lemma_decimal_injective(a: nat, b: nat)
    requires
        decimal(a) == decimal(b),
    ensures
        a == b,
    decreases a,
{
    if a < 10 && b < 10 {
        assert(decimal(a)[0] == digit_char(a));
    } else if a < 10 {
        lemma_decimal_len(b / 10);
        assert(decimal(b).len() >= 2);
    } else if b < 10 {
        lemma_decimal_len(a / 10);
        assert(decimal(a).len() >= 2);
    } else {
        assert(decimal(a).last() == digit_char(a % 10));
        assert(decimal(b).last() == digit_char(b % 10));
        assert(decimal(a).drop_last() =~= decimal(a / 10));
        assert(decimal(b).drop_last() =~= decimal(b / 10));
        lemma_decimal_injective(a / 10, b / 10);
    }
}

proof fn lemma_suffixed_injective(base: Seq<char>, a: nat, b: nat)
    requires
        suffixed(base, a) == suffixed(base, b),
    ensures
        a == b,
{
    reveal_strlit("_");
    let n = base.len() + 1;
    assert(suffixed(base, a).skip(n as int) =~= decimal(a));
    assert(suffixed(base, b).skip(n as int) =~= decimal(b));
    lemma_decimal_injective(a, b);
}

fn id_taken(existing: &Vec<PersonItem>, id: &str) -> (r: bool)
    ensures
        r == person_ids(existing@).contains(id@),
{
    let mut i: usize = 0;
    while i < existing.len()
        invariant
            i <= existing.len(),
            forall|k: int| 0 <= k < i ==> existing@[k].id@ != id@,
        decreases existing.len() - i,
    {
        if str_eq(existing[i].id.as_str(), id) {
            assert(person_ids(existing@)[i as int] == id@);
            return true;
        }
        i = i + 1;
    }
    assert forall|k: int| 0 <= k < person_ids(existing@).len() implies person_ids(existing@)[k]
        != id@ by {
        assert(person_ids(existing@)[k] == existing@[k].id@);
    }
    false
}

pub fn unique_person_id(existing: &Vec<PersonItem>, name: &str) -> (r: String)
    requires
        existing@.len() + 3 <= u64::MAX,
    ensures
        is_unique_person_id(existing@, name@, r@),
{
    let base = person_id_slug(name);
    if !id_taken(existing, base.as_str()) {
        return base;
    }
    let ghost ids = person_ids(existing@);
    let ghost ids_set = ids.to_set();
    let ghost mut seen: Set<Seq<char>> = Set::empty();
    proof {
        ids.lemma_cardinality_of_set();
    }
    let mut counter: u64 = 2;
    loop
        invariant
            ids == person_ids(existing@),
            ids_set == ids.to_set(),
            ids_set.len() <= existing@.len(),
            ids.contains(base@),
            base@ == person_slug(name@),
            2 <= counter <= existing@.len() + 2,
            existing@.len() + 3 <= u64::MAX,
            seen.finite(),
            seen.len() == counter - 2,
            seen.subset_of(ids_set),
            forall|j: nat| 2 <= j < counter ==> ids.contains(#[trigger] suffixed(base@, j)),
            forall|x: Seq<char>| seen.contains(x) ==> exists|j: nat|
                2 <= j < counter && x == #[trigger] suffixed(base@, j),
        decreases existing@.len() + 2 - counter,
    {
        let underscored = concat(base.as_str(), "_");
        let number = u64_to_decimal(counter);
        let candidate = concat(underscored.as_str(), number.as_str());
        assert(candidate@ == suffixed(base@, counter as nat));
        if !id_taken(existing, candidate.as_str()) {
            return candidate;
        }
        proof {
            assert(!seen.contains(candidate@)) by {
                if seen.contains(candidate@) {
                    let j = choose|j: nat|
                        2 <= j < counter && candidate@ == #[trigger] suffixed(base@, j);
                    lemma_suffixed_injective(base@, j, counter as nat);
                }
            }
            seen = seen.insert(candidate@);
            assert(ids_set.contains(candidate@));
            lemma_len_subset(seen, ids_set);
        }
        counter = counter + 1;
    }
}

/// The outcome of adding a speaker name to the registry.
#[derive(Debug)]
pub enum EnsuredPerson {
    /// A person with that name (compared case-insensitively) already exists.
    Existing(PersonItem),
    /// A new person to append to the registry.
    Created(PersonItem),
}

/// Index of the first person whose lowercased name equals `lower`.
pub open spec fn first_with_lower_name(people: Seq<PersonItem>, lower: Seq<char>, from: int) -> Option<int>
    decreases people.len() - from,
{
    if from < 0 || from >= people.len() {
        None
    } else if unicode_lowercase(people[from].name@) == lower {
        Some(from)
    } else {
        first_with_lower_name(people, lower, from + 1)
    }
}

/// Case-insensitive name match returns the existing person untouched; otherwise
/// a new person with a collision-free generated id. The name is trimmed first and
/// must not be empty.
pub fn ensure_person_plan(people: &Vec<PersonItem>, raw_name: &str) -> (r: Result<EnsuredPerson, StoreError>)
    requires
        people@.len() + 3 <= u64::MAX,
    ensures
        unicode_trim(raw_name@).len() == 0 <==> r is Err,
        r matches Err(e) ==> e matches StoreError::Io(m) && m@ == "person name cannot be empty"@,
        r matches Ok(EnsuredPerson::Existing(p)) ==> ({
            let lower = unicode_lowercase(unicode_trim(raw_name@));
            first_with_lower_name(people@, lower, 0) matches Some(i) && p == people@[i]
        }),
        r matches Ok(EnsuredPerson::Created(p)) ==> ({
            let name = unicode_trim(raw_name@);
            &&& first_with_lower_name(people@, unicode_lowercase(name), 0) is None
            &&& p.name@ == name
            &&& is_unique_person_id(people@, name, p.id@)
        }),
{
    let name = trim(raw_name);
    if name.unicode_len() == 0 {
        return Err(StoreError::Io(to_owned_string("person name cannot be empty")));
    }
    let lower = to_lowercase(name.as_str());
    let mut i: usize = 0;
    while i < people.len()
        invariant
            i <= people.len(),
            name@ == unicode_trim(raw_name@),
            name@.len() > 0,
            lower@ == unicode_lowercase(name@),
            first_with_lower_name(people@, lower@, 0) == first_with_lower_name(
                people@,
                lower@,
                i as int,
            ),
        decreases people.len() - i,
    {
        let candidate = to_lowercase(people[i].name.as_str());
        if str_eq(candidate.as_str(), lower.as_str()) {
            return Ok(EnsuredPerson::Existing(people[i].clone()));
        }
        i = i + 1;
    }
    let id = unique_person_id(people, name.as_str());
    Ok(EnsuredPerson::Created(PersonItem { id, name }))
}

impl SortKey for PersonItem {
    /// People list order: lowercased name, then id.
    open spec fn spec_le(&self, other: &Self) -> bool {
        str_pair_le(
            unicode_lowercase(self.name@),
            self.id@,
            unicode_lowercase(other.name@),
            other.id@,
        )
    }

    proof fn lemma_le_total(a: &Self, b: &Self) {
        lemma_str_pair_le_total(
            unicode_lowercase(a.name@),
            a.id@,
            unicode_lowercase(b.name@),
            b.id@,
        );
    }

    proof fn lemma_le_transitive(a: &Self, b: &Self, c: &Self) {
        lemma_str_pair_le_transitive(
            unicode_lowercase(a.name@),
            a.id@,
            unicode_lowercase(b.name@),
            b.id@,
            unicode_lowercase(c.name@),
            c.id@,
        );
    }

    fn le(&self, other: &Self) -> (r: bool) {
        let a = to_lowercase(self.name.as_str());
        let b = to_lowercase(other.name.as_str());
        if str_lt(a.as_str(), b.as_str()) {
            true
        } else if str_eq(a.as_str(), b.as_str()) {
            str_eq(self.id.as_str(), other.id.as_str()) || str_lt(self.id.as_str(), other.id.as_str())
        } else {
            false
        }
    }
}


impl DeepCopy for PersonItem {
    fn deep_copy(&self) -> (r: Self) {
        self.clone()
    }
}

/// A well-formed slug: non-empty, ASCII letters, digits and `_` only,
/// starting and ending with a letter or digit, no `__`.
pub open spec fn slug_shaped(s: Seq<char>) -> bool {
    &&& s.len() > 0
    &&& forall|i: int| 0 <= i < s.len() ==> is_ascii_alnum(#[trigger] s[i]) || s[i] == '_'
    &&& is_ascii_alnum(s[0])
    &&& is_ascii_alnum(s[s.len() - 1])
    &&& forall|i: int| 0 <= i < s.len() - 1 ==> !(#[trigger] s[i] == '_' && s[i + 1] == '_')
}

pub open spec fn is_ascii_upper(c: char) -> bool {
    'A' <= c && c <= 'Z'
}

/// No ASCII capital letter.
pub open spec fn no_ascii_upper(s: Seq<char>) -> bool {
    forall|i: int| 0 <= i < s.len() ==> !is_ascii_upper(#[trigger] s[i])
}

proof fn lemma_slug_fold_shape(s: Seq<char>)
    ensures
        slug_fold(s).0.len() == 0 || slug_shaped(slug_fold(s).0),
        no_ascii_upper(s) ==> no_ascii_upper(slug_fold(s).0),
    decreases s.len(),
{
    if s.len() > 0 {
        let p = s.drop_last();
        lemma_slug_fold_shape(p);
        let prev = slug_fold(p);
        let c = s.last();
        if no_ascii_upper(s) {
            assert(no_ascii_upper(p)) by {
                assert forall|i: int| 0 <= i < p.len() implies !is_ascii_upper(#[trigger] p[i]) by {
                    assert(p[i] == s[i]);
                }
            }
            assert(!is_ascii_upper(s[s.len() - 1]));
        }
        if is_ascii_alnum(c) {
            let base = if prev.1 && prev.0.len() > 0 { prev.0.push('_') } else { prev.0 };
            let r = base.push(c);
            assert(slug_fold(s).0 == r);
            if prev.0.len() > 0 {
                let q = prev.0;
                assert forall|i: int| 0 <= i < r.len() implies is_ascii_alnum(#[trigger] r[i]) || r[i] == '_' by {
                    if i < q.len() {
                        assert(r[i] == q[i]);
                    }
                }
                assert(r[0] == q[0]);
                assert forall|i: int| 0 <= i < r.len() - 1 implies !(#[trigger] r[i] == '_' && r[i + 1] == '_') by {
                    if i + 1 < q.len() {
                        assert(r[i] == q[i] && r[i + 1] == q[i + 1]);
                    } else if i + 1 == q.len() {
                        assert(r[i] == q[q.len() - 1]);
                    }
                }
                if no_ascii_upper(s) {
                    assert forall|i: int| 0 <= i < r.len() implies !is_ascii_upper(#[trigger] r[i]) by {
                        if i < q.len() {
                            assert(r[i] == q[i]);
                        }
                    }
                }
            } else {
                assert(r =~= seq![c]);
            }
        } else {
            assert(slug_fold(s).0 == prev.0);
        }
    }
}

proof fn lemma_slug_prefix(t: Seq<char>, k: int)
    requires
        slug_shaped(t),
        1 <= k <= t.len(),
    ensures
        is_ascii_alnum(t[k - 1]) ==> slug_fold(t.subrange(0, k)) == (t.subrange(0, k), false),
        t[k - 1] == '_' ==> slug_fold(t.subrange(0, k)) == (t.subrange(0, k - 1), true),
    decreases k,
{
    let p = t.subrange(0, k);
    assert(p.drop_last() =~= t.subrange(0, k - 1));
    assert(p.last() == t[k - 1]);
    if k == 1 {
        assert(t.subrange(0, 0) =~= Seq::<char>::empty());
        assert(slug_fold(Seq::<char>::empty()) == (Seq::<char>::empty(), false));
        assert(Seq::<char>::empty().push(t[0]) =~= p);
    } else {
        lemma_slug_prefix(t, k - 1);
        let c = t[k - 1];
        if is_ascii_alnum(c) {
            if t[k - 2] == '_' {
                assert(k - 2 >= 1) by {
                    if k - 2 == 0 {
                        assert(is_ascii_alnum(t[0]));
                    }
                }
                assert(t.subrange(0, k - 2).len() > 0);
                assert(t.subrange(0, k - 2).push('_') =~= t.subrange(0, k - 1));
                assert(t.subrange(0, k - 1).push(c) =~= p);
            } else {
                assert(is_ascii_alnum(t[k - 2]));
                assert(t.subrange(0, k - 1).push(c) =~= p);
            }
        } else {
            assert(c == '_');
            assert(!(t[k - 2] == '_' && t[k - 1] == '_'));
            assert(is_ascii_alnum(t[k - 2]));
        }
    }
}

/// Every slug is well formed, and a name without ASCII letters or digits
/// (once lowercased) gets `person`.
pub proof fn lemma_person_slug_shape(name: Seq<char>)
    ensures
        slug_shaped(person_slug(name)),
        slug_fold(lower_of(name)).0.len() == 0 ==> person_slug(name) == "person"@,
{
    lemma_slug_fold_shape(lower_of(name));
    reveal_strlit("person");
    let t = person_slug(name);
    if slug_fold(lower_of(name)).0.len() == 0 {
        assert(t == "person"@);
        assert(t =~= seq!['p', 'e', 'r', 's', 'o', 'n']);
    }
}

/// A slug without capitals is its own slug: slugging is idempotent. Every
/// slug `person_id_slug` returns is such a slug.
pub proof fn lemma_person_slug_idempotent(name: Seq<char>)
    requires
        no_ascii_upper(person_slug(name)),
    ensures
        person_slug(person_slug(name)) == person_slug(name),
{
    lemma_person_slug_shape(name);
    let t = person_slug(name);
    assert(is_ascii_seq(t)) by {
        assert forall|i: int| 0 <= i < t.len() implies (#[trigger] t[i] as u32) < 128 by {
            assert(is_ascii_alnum(t[i]) || t[i] == '_');
        }
    }
    assert(ascii_lower(t) =~= t) by {
        assert forall|i: int| 0 <= i < t.len() implies #[trigger] ascii_lower(t)[i] == t[i] by {
            assert(!is_ascii_upper(t[i]));
        }
    }
    assert(lower_of(t) == t);
    lemma_slug_prefix(t, t.len() as int);
    assert(t.subrange(0, t.len() as int) =~= t);
}

/// An ASCII name's slug has lowercase letters only.
pub proof fn lemma_ascii_name_slug_lowercase(name: Seq<char>)
    requires
        is_ascii_seq(name),
    ensures
        no_ascii_upper(person_slug(name)),
{
    let l = ascii_lower(name);
    assert(no_ascii_upper(l)) by {
        assert forall|i: int| 0 <= i < l.len() implies !is_ascii_upper(#[trigger] l[i]) by {
            let c = name[i];
            if is_ascii_upper(c) {
                assert(l[i] == ((c as u32) + 32) as char);
                assert((c as u32) >= 65 && (c as u32) <= 90);
                assert(((c as u32) + 32) as char as u32 >= 97);
            }
        }
    }
    lemma_slug_fold_shape(l);
    reveal_strlit("person");
    if slug_fold(l).0.len() == 0 {
        assert(person_slug(name) =~= seq!['p', 'e', 'r', 's', 'o', 'n']);
    }
}


/// The ASCII letters and digits of a text, in order.
pub open spec fn letters_and_digits(s: Seq<char>) -> Seq<char> {
    s.filter(|c: char| ('a' <= c && c <= 'z') || ('A' <= c && c <= 'Z') || ('0' <= c && c <= '9'))
}

/// A text without its `_` separators.
pub open spec fn without_separators(s: Seq<char>) -> Seq<char> {
    s.filter(|c: char| c != '_')
}

proof fn lemma_fold_keeps_letters_and_digits(s: Seq<char>)
    ensures
        without_separators(slug_fold(s).0) == letters_and_digits(s),
    decreases s.len(),
{
    let keep = |c: char| ('a' <= c && c <= 'z') || ('A' <= c && c <= 'Z') || ('0' <= c && c <= '9');
    let sep = |c: char| c != '_';
    if s.len() == 0 {
        reveal(Seq::filter);
    } else {
        let p = s.drop_last();
        let c = s.last();
        lemma_fold_keeps_letters_and_digits(p);
        let prev = slug_fold(p);
        assert(s =~= p.push(c));
        p.lemma_filter_push(c, keep);
        if is_ascii_alnum(c) {
            let base = if prev.1 && prev.0.len() > 0 { prev.0.push('_') } else { prev.0 };
            prev.0.lemma_filter_push('_', sep);
            assert(base.filter(sep) == prev.0.filter(sep));
            base.lemma_filter_push(c, sep);
        }
    }
}

/// The slug keeps every ASCII letter and digit of the lowercased name, in
/// order, and nothing else but `_` separators; a name with none is `person`.
pub proof fn lemma_slug_keeps_letters_and_digits(name: Seq<char>)
    ensures
        letters_and_digits(lower_of(name)).len() == 0 ==> person_slug(name) == "person"@,
        letters_and_digits(lower_of(name)).len() > 0 ==> without_separators(person_slug(name)) == letters_and_digits(
            lower_of(name),
        ),
{
    let l = lower_of(name);
    let t = slug_fold(l).0;
    lemma_fold_keeps_letters_and_digits(l);
    lemma_slug_fold_shape(l);
    if t.len() > 0 {
        assert(t[0] != '_');
        t.lemma_filter_contains(|c: char| c != '_', 0);
        assert(without_separators(t).len() > 0);
    }
}

} // verus!
