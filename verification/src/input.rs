//! Validation and normalisation of snippet input, and the fresh id and
//! timestamp that a write records.

use vstd::prelude::*;

use crate::model::{DataError, EntryInput};
use crate::text::{
    is_white_space, lemma_trimmed_empty_iff_blank, lemma_trimmed_idempotent, lowercase_of,
    to_lowercase, trim, trimmed,
};
use crate::timestamp::is_rfc3339_date_time;

verus! {

// ---------------------------------------------------------------------------
// Tags
// ---------------------------------------------------------------------------

/// A tag as it is stored: trimmed, then lower-cased.
pub open spec fn normalized_tag(raw: Seq<char>) -> Seq<char> {
    lowercase_of(trimmed(raw))
}

/// The stored tags for the typed tags `raws`: each normalised, empty ones
/// dropped, and each kept only at its first occurrence.
pub open spec fn normalized_tags(raws: Seq<Seq<char>>) -> Seq<Seq<char>>
    decreases raws.len(),
{
    if raws.len() == 0 {
        Seq::empty()
    } else {
        let kept = normalized_tags(raws.drop_last());
        let tag = normalized_tag(raws.last());
        if tag.len() == 0 || kept.contains(tag) {
            kept
        } else {
            kept.push(tag)
        }
    }
}

/// Whether `tag` occurs among `tags`.
fn contains_tag(tags: &Vec<String>, tag: &String) -> (r: bool)
    ensures
        r == tags.deep_view().contains(tag@),
{
    let mut k: usize = 0;
    while k < tags.len()
        invariant
            0 <= k <= tags.len(),
            forall|m: int| 0 <= m < k ==> tags.deep_view()[m] != tag@,
        decreases tags.len() - k,
    {
        if tags[k] == *tag {
            assert(tags.deep_view()[k as int] == tag@);
            return true;
        }
        k = k + 1;
    }
    false
}

/// Normalises typed tags: trims and lower-cases each, drops the empty ones
/// and keeps each tag once, in the order of its first occurrence.
pub fn normalize_tags(tags: Vec<String>) -> (out: Vec<String>)
    ensures
        out.deep_view() == normalized_tags(tags.deep_view()),
{
    let mut out: Vec<String> = Vec::new();
    let n = tags.len();
    assert(tags.deep_view().take(0) =~= Seq::<Seq<char>>::empty());
    for i in 0..n
        invariant
            n == tags.len(),
            out.deep_view() == normalized_tags(tags.deep_view().take(i as int)),
    {
        let trimmed_tag = trim(tags[i].as_str());
        let tag = to_lowercase(trimmed_tag.as_str());
        proof {
            let raws = tags.deep_view().take(i + 1);
            assert(raws.drop_last() =~= tags.deep_view().take(i as int));
            assert(raws.last() == tags[i as int]@);
        }
        if !tag.as_str().is_empty() && !contains_tag(&out, &tag) {
            let ghost before = out.deep_view();
            out.push(tag);
            assert(out.deep_view() =~= before.push(tag@));
        }
    }
    assert(tags.deep_view().take(n as int) =~= tags.deep_view());
    out
}

/// Every stored tag is non-empty, comes from one of the typed tags, and no
/// tag is stored twice.
pub proof fn lemma_normalized_tags_shape(raws: Seq<Seq<char>>)
    ensures
        normalized_tags(raws).no_duplicates(),
        forall|k: int|
            0 <= k < normalized_tags(raws).len() ==> #[trigger] normalized_tags(raws)[k].len() > 0,
        forall|k: int|
            #![trigger normalized_tags(raws)[k]]
            0 <= k < normalized_tags(raws).len() ==> exists|i: int|
                0 <= i < raws.len() && normalized_tag(#[trigger] raws[i]) == normalized_tags(
                    raws,
                )[k],
        forall|i: int|
            0 <= i < raws.len() && normalized_tag(#[trigger] raws[i]).len() > 0
                ==> normalized_tags(raws).contains(normalized_tag(raws[i])),
    decreases raws.len(),
{
    if raws.len() > 0 {
        let prev = raws.drop_last();
        lemma_normalized_tags_shape(prev);
        let kept = normalized_tags(prev);
        let tag = normalized_tag(raws.last());
        let out = normalized_tags(raws);
        assert forall|k: int| #![trigger out[k]] 0 <= k < out.len() implies exists|i: int|
            0 <= i < raws.len() && normalized_tag(#[trigger] raws[i]) == out[k] by {
            if k < kept.len() {
                let i = choose|i: int|
                    0 <= i < prev.len() && normalized_tag(#[trigger] prev[i]) == kept[k];
                assert(raws[i] == prev[i]);
            } else {
                assert(raws[raws.len() - 1] == raws.last());
            }
        }
        assert forall|i: int|
            0 <= i < raws.len() && normalized_tag(#[trigger] raws[i]).len() > 0 implies out.contains(
            normalized_tag(raws[i]),
        ) by {
            if i < prev.len() {
                assert(raws[i] == prev[i]);
                assert(kept.contains(normalized_tag(prev[i])));
                let k = choose|k: int| 0 <= k < kept.len() && kept[k] == normalized_tag(prev[i]);
                assert(out[k] == kept[k]);
            } else {
                assert(raws[i] == raws.last());
                if !kept.contains(tag) {
                    assert(out[out.len() - 1] == tag);
                }
            }
        }
    }
}

/// Normalising tags that are already normalised changes nothing, provided
/// that normalising a stored tag gives it back.
pub proof fn lemma_normalized_tags_stable(raws: Seq<Seq<char>>)
    requires
        forall|k: int|
            0 <= k < normalized_tags(raws).len() ==> normalized_tag(
                #[trigger] normalized_tags(raws)[k],
            ) == normalized_tags(raws)[k],
    ensures
        normalized_tags(normalized_tags(raws)) == normalized_tags(raws),
{
    lemma_normalized_tags_shape(raws);
    lemma_normalized_tags_of_normalized(normalized_tags(raws));
}

proof fn lemma_normalized_tags_of_normalized(tags: Seq<Seq<char>>)
    requires
        tags.no_duplicates(),
        forall|k: int| 0 <= k < tags.len() ==> (#[trigger] tags[k]).len() > 0,
        forall|k: int| 0 <= k < tags.len() ==> normalized_tag(#[trigger] tags[k]) == tags[k],
    ensures
        normalized_tags(tags) == tags,
    decreases tags.len(),
{
    if tags.len() > 0 {
        let prev = tags.drop_last();
        assert forall|k: int| 0 <= k < prev.len() implies normalized_tag(#[trigger] prev[k])
            == prev[k] by {
            assert(prev[k] == tags[k]);
        }
        assert forall|k: int| 0 <= k < prev.len() implies (#[trigger] prev[k]).len() > 0 by {
            assert(prev[k] == tags[k]);
        }
        lemma_normalized_tags_of_normalized(prev);
        assert(tags.last() == tags[tags.len() - 1]);
        assert(!prev.contains(tags.last())) by {
            if prev.contains(tags.last()) {
                let k = choose|k: int| 0 <= k < prev.len() && prev[k] == tags.last();
                assert(tags[k] == tags[tags.len() - 1]);
            }
        }
        assert(prev.push(tags.last()) =~= tags);
    }
}

/// A stored tag is exactly the typed tag trimmed and then lower-cased:
/// nothing else is cut or changed.
pub proof fn lemma_normalized_tag_is_trimmed_lowercase(raw: Seq<char>)
    ensures
        normalized_tag(raw) == lowercase_of(trimmed(raw)),
{
}

/// The stored tags are the typed tags, each trimmed and lower-cased: each
/// stored tag is the trimmed, lower-cased form of a typed tag, each typed
/// tag whose trimmed, lower-cased form is not empty is stored in that form,
/// and no stored tag is empty or stored twice.
pub proof fn lemma_normalized_tags_are_trimmed_lowercase(raws: Seq<Seq<char>>)
    ensures
        forall|k: int|
            #![trigger normalized_tags(raws)[k]]
            0 <= k < normalized_tags(raws).len() ==> exists|i: int|
                0 <= i < raws.len() && lowercase_of(trimmed(#[trigger] raws[i]))
                    == normalized_tags(raws)[k],
        forall|i: int|
            0 <= i < raws.len() && lowercase_of(trimmed(#[trigger] raws[i])).len() > 0
                ==> normalized_tags(raws).contains(lowercase_of(trimmed(raws[i]))),
        forall|k: int|
            0 <= k < normalized_tags(raws).len() ==> (#[trigger] normalized_tags(raws)[k]).len()
                > 0,
        normalized_tags(raws).no_duplicates(),
{
    lemma_normalized_tags_shape(raws);
    let out = normalized_tags(raws);
    assert forall|k: int| #![trigger out[k]] 0 <= k < out.len() implies exists|i: int|
        0 <= i < raws.len() && lowercase_of(trimmed(#[trigger] raws[i])) == out[k] by {
        let i = choose|i: int| 0 <= i < raws.len() && normalized_tag(#[trigger] raws[i]) == out[k];
        assert(lowercase_of(trimmed(raws[i])) == out[k]);
    }
    assert forall|i: int|
        0 <= i < raws.len() && lowercase_of(trimmed(#[trigger] raws[i])).len() > 0 implies out.contains(
        lowercase_of(trimmed(raws[i])),
    ) by {
        assert(normalized_tag(raws[i]) == lowercase_of(trimmed(raws[i])));
    }
}

/// Validation has two rules and no others: input whose key and value each
/// have a character that is not whitespace passes; a key of whitespace only
/// is refused first, then a value of whitespace only.
pub proof fn lemma_validation_rules(key: Seq<char>, value: Seq<char>)
    ensures
        (exists|k: int| 0 <= k < key.len() && !is_white_space(#[trigger] key[k])) && (exists|k: int|
            0 <= k < value.len() && !is_white_space(#[trigger] value[k]))
            ==> validation_message(key, value) is None,
        !(exists|k: int| 0 <= k < key.len() && !is_white_space(#[trigger] key[k]))
            ==> validation_message(key, value) == Some("key must be non-empty"@),
        (exists|k: int| 0 <= k < key.len() && !is_white_space(#[trigger] key[k])) && !(exists|k: int|
            0 <= k < value.len() && !is_white_space(#[trigger] value[k]))
            ==> validation_message(key, value) == Some("value must be non-empty"@),
{
    lemma_trimmed_empty_iff_blank(key);
    lemma_trimmed_empty_iff_blank(value);
}

// ---------------------------------------------------------------------------
// Validated input
// ---------------------------------------------------------------------------

/// The message of the validation error for a snippet with this key and
/// value, if it breaks a rule; the key is checked first.
pub open spec fn validation_message(key: Seq<char>, value: Seq<char>) -> Option<Seq<char>> {
    if trimmed(key).len() == 0 {
        Some("key must be non-empty"@)
    } else if trimmed(value).len() == 0 {
        Some("value must be non-empty"@)
    } else {
        None
    }
}

/// Snippet input that passed validation: the trimmed key, the value as typed
/// and the normalised tags.
#[derive(Debug)]
pub struct NormalizedEntryInput {
    pub key: String,
    pub value: String,
    pub tags: Vec<String>,
}

impl NormalizedEntryInput {
    /// What validation makes of `input` when it passes.
    pub open spec fn normalizes(self, input: EntryInput) -> bool {
        &&& self.key@ == trimmed(input.key@)
        &&& self.value@ == input.value@
        &&& self.tags.deep_view() == normalized_tags(input.tags.deep_view())
    }

    /// Validates and normalises snippet input: the key must have a character
    /// other than whitespace, and so must the value.
    pub fn new(input: EntryInput) -> (r: Result<NormalizedEntryInput, DataError>)
        ensures
            match validation_message(input.key@, input.value@) {
                Some(text) => r matches Err(DataError::Validation(m)) && m@ == text,
                None => r matches Ok(n) && n.normalizes(input),
            },
    {
        let key = trim(input.key.as_str());
        if key.as_str().is_empty() {
            return Err(DataError::Validation(String::from_str("key must be non-empty")));
        }
        let value_trimmed = trim(input.value.as_str());
        if value_trimmed.as_str().is_empty() {
            return Err(DataError::Validation(String::from_str("value must be non-empty")));
        }
        let EntryInput { key: _, value, tags } = input;
        let tags = normalize_tags(tags);
        Ok(NormalizedEntryInput { key, value, tags })
    }
}

/// What validated input gives the store keeps the store's rules: the key is
/// not blank and trimming it changes nothing, the value is not blank, and
/// the tags are non-empty, each stored once, and each the trimmed,
/// lower-cased form of a typed tag.
pub proof fn lemma_normalized_input_meets_store_rules(input: EntryInput, n: NormalizedEntryInput)
    requires
        validation_message(input.key@, input.value@) is None,
        n.normalizes(input),
    ensures
        n.key@.len() > 0,
        trimmed(n.key@) == n.key@,
        trimmed(n.value@).len() > 0,
        n.tags.deep_view().no_duplicates(),
        forall|k: int|
            0 <= k < n.tags.deep_view().len() ==> (#[trigger] n.tags.deep_view()[k]).len() > 0,
        forall|k: int|
            #![trigger n.tags.deep_view()[k]]
            0 <= k < n.tags.deep_view().len() ==> exists|i: int|
                0 <= i < input.tags.deep_view().len() && normalized_tag(
                    #[trigger] input.tags.deep_view()[i],
                ) == n.tags.deep_view()[k],
{
    lemma_trimmed_idempotent(input.key@);
    lemma_normalized_tags_shape(input.tags.deep_view());
}

// ---------------------------------------------------------------------------
// Fresh ids and timestamps
// ---------------------------------------------------------------------------

/// Whether `c` is one of `0`-`9`, `a`-`f`.
pub open spec fn is_lower_hex_digit(c: char) -> bool {
    ('0' as u32 <= c as u32 <= '9' as u32) || ('a' as u32 <= c as u32 <= 'f' as u32)
}

/// Whether `s` is a random (version 4, RFC 4122 variant) UUID written in the
/// hyphenated lower-case form, such as `67e55044-10b1-426f-9247-bb680e5fe0c8`.
pub open spec fn is_hyphenated_v4_uuid(s: Seq<char>) -> bool {
    &&& s.len() == 36
    &&& forall|i: int|
        0 <= i < 36 ==> if i == 8 || i == 13 || i == 18 || i == 23 {
            s[i] == '-'
        } else {
            is_lower_hex_digit(#[trigger] s[i])
        }
    &&& s[14] == '4'
    &&& (s[19] == '8' || s[19] == '9' || s[19] == 'a' || s[19] == 'b')
}

/// Calls `uuid::Uuid::new_v4` and writes the id with its `Display`
/// (hyphenated, lower case). The contract states the form of every such id;
/// which of them comes out is left to chance.
#[verifier::external_body]
fn new_random_id() -> (id: String)
    ensures
        is_hyphenated_v4_uuid(id@),
{
    uuid::Uuid::new_v4().to_string()
}

/// A point in time with a UTC offset, from the `time` crate.
#[verifier::external_type_specification]
#[verifier::external_body]
pub struct ExOffsetDateTime(time::OffsetDateTime);

/// Calls `time::OffsetDateTime::now_utc`. The clock decides the result, so
/// nothing is stated of it.
#[verifier::external_body]
fn current_utc_time() -> time::OffsetDateTime {
    time::OffsetDateTime::now_utc()
}

/// Calls `time::OffsetDateTime::format` with the RFC 3339 description. The
/// contract states the form that every such text has: the year as four
/// digits, month, day, hour, minute and second as two digits each, the
/// fraction of a second when it is not zero, and the offset. Which point in
/// time it shows, and when formatting fails (a year outside 0 to 9999, or an
/// offset with seconds), depend on the point in time, which is opaque here,
/// and are not stated.
#[verifier::external_body]
fn format_rfc3339(at: time::OffsetDateTime) -> (r: Result<String, time::error::Format>)
    ensures
        r matches Ok(text) ==> is_rfc3339_date_time(text@),
{
    at.format(&time::format_description::well_known::Rfc3339)
}

/// The current UTC time in RFC 3339 form.
fn now_rfc3339() -> (r: Result<String, DataError>)
    ensures
        match r {
            Ok(text) => is_rfc3339_date_time(text@),
            Err(e) => e is TimeFormatting,
        },
{
    match format_rfc3339(current_utc_time()) {
        Ok(text) => Ok(text),
        Err(err) => Err(DataError::TimeFormatting(err)),
    }
}

/// A new snippet ready to be written: its fresh id, the time of the write
/// and the validated input.
#[derive(Debug)]
pub struct PreparedEntry {
    pub id: String,
    pub timestamp: String,
    pub input: NormalizedEntryInput,
}

/// A changed snippet ready to be written: the time of the write and the
/// validated input.
#[derive(Debug)]
pub struct PreparedUpdate {
    pub timestamp: String,
    pub input: NormalizedEntryInput,
}

/// Validates input for a new snippet and draws its id and creation time.
/// Invalid input is refused before any id or time is taken.
pub fn prepare_create(input: EntryInput) -> (r: Result<PreparedEntry, DataError>)
    ensures
        match validation_message(input.key@, input.value@) {
            Some(text) => r matches Err(DataError::Validation(m)) && m@ == text,
            None => match r {
                Ok(p) => p.input.normalizes(input) && is_hyphenated_v4_uuid(p.id@)
                    && is_rfc3339_date_time(p.timestamp@),
                Err(e) => e is TimeFormatting,
            },
        },
{
    let normalized = match NormalizedEntryInput::new(input) {
        Ok(n) => n,
        Err(e) => return Err(e),
    };
    let id = new_random_id();
    let timestamp = match now_rfc3339() {
        Ok(t) => t,
        Err(e) => return Err(e),
    };
    Ok(PreparedEntry { id, timestamp, input: normalized })
}

/// Validates changed input for a snippet and takes the time of the update.
/// Invalid input is refused before the time is taken.
pub fn prepare_update(input: EntryInput) -> (r: Result<PreparedUpdate, DataError>)
    ensures
        match validation_message(input.key@, input.value@) {
            Some(text) => r matches Err(DataError::Validation(m)) && m@ == text,
            None => match r {
                Ok(p) => p.input.normalizes(input) && is_rfc3339_date_time(p.timestamp@),
                Err(e) => e is TimeFormatting,
            },
        },
{
    let normalized = match NormalizedEntryInput::new(input) {
        Ok(n) => n,
        Err(e) => return Err(e),
    };
    let timestamp = match now_rfc3339() {
        Ok(t) => t,
        Err(e) => return Err(e),
    };
    Ok(PreparedUpdate { timestamp, input: normalized })
}

} // verus!
