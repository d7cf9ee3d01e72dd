use crate::documents::DocumentsBatchIndex;
use crate::error::TransformError;
use crate::fields_ids_map::{has_name, with_name, FieldId, FieldsIdsMap, MAX_FIELDS};
use crate::text::{has_substring, lowercased, str_contains, str_to_lowercase, str_trim, trimmed};
use vstd::prelude::*;

verus! {

/// The name that the primary key gets when none is known and none can be
/// inferred, and the text that a field name holds for it to be inferred.
pub const DEFAULT_PRIMARY_KEY_NAME: &'static str = "id";

/// The characters that a document identifier may be made of.
pub open spec fn is_id_char(c: char) -> bool {
    ('a' <= c && c <= 'z') || ('A' <= c && c <= 'Z') || ('0' <= c && c <= '9') || c == '-' || c
        == '_'
}

/// Whether `id` can identify a document: it is not empty and holds only
/// letters, digits, hyphens and underscores.
pub open spec fn is_valid_document_id(id: Seq<char>) -> bool {
    id.len() > 0 && forall|i: int| 0 <= i < id.len() ==> is_id_char(#[trigger] id[i])
}

/// The identifier that a string value stands for: the value without the
/// surrounding whitespace, if what is left is a valid identifier.
pub open spec fn normalized_document_id(value: Seq<char>) -> Option<Seq<char>> {
    if is_valid_document_id(trimmed(value)) {
        Some(trimmed(value))
    } else {
        None
    }
}

fn check_id_char(c: char) -> (ok: bool)
    ensures
        ok == is_id_char(c),
{
    (c >= 'a' && c <= 'z') || (c >= 'A' && c <= 'Z') || (c >= '0' && c <= '9') || c == '-' || c
        == '_'
}

/// Trims `document_id` and returns what is left if it is a valid document
/// identifier.
pub fn validate_document_id(document_id: &str) -> (valid: Option<&str>)
    ensures
        valid matches Some(id) ==> normalized_document_id(document_id@) == Some(id@),
        valid is None ==> normalized_document_id(document_id@) is None,
{
    let id = str_trim(document_id);
    let len = id.unicode_len();
    if len == 0 {
        return None;
    }
    let mut i: usize = 0;
    while i < len
        invariant
            id@ == trimmed(document_id@),
            len == id@.len(),
            i <= len,
            forall|j: int| 0 <= j < i ==> is_id_char(#[trigger] id@[j]),
        decreases len - i,
    {
        if !check_id_char(id.get_char(i)) {
            assert(!is_id_char(id@[i as int]));
            return None;
        }
        i += 1;
    }
    Some(id)
}

/// Whether a field of this name can be taken for the primary key: its
/// lowercase form holds the default name somewhere.
pub open spec fn is_primary_key_candidate(name: Seq<char>) -> bool {
    has_substring(lowercased(name), DEFAULT_PRIMARY_KEY_NAME@)
}

/// The first field of the batch, in ascending order of id, whose name can
/// be taken for the primary key.
pub fn find_primary_key(index: &DocumentsBatchIndex) -> (found: Option<&str>)
    requires
        index.wf(),
    ensures
        found matches Some(name) ==> exists|id: FieldId|
            {
                &&& index@.dom().contains(id)
                &&& #[trigger] index@[id] == name@
                &&& is_primary_key_candidate(name@)
                &&& forall|lower: FieldId|
                    lower < id && index@.dom().contains(lower) ==> !is_primary_key_candidate(
                        #[trigger] index@[lower],
                    )
            },
        found is None ==> forall|id: FieldId|
            index@.dom().contains(id) ==> !is_primary_key_candidate(#[trigger] index@[id]),
{
    let sorted = index.sorted();
    let mut i: usize = 0;
    while i < sorted.len()
        invariant
            index.wf(),
            i <= sorted@.len(),
            forall|a: int, b: int| 0 <= a < b < sorted@.len() ==> sorted@[a].0 < sorted@[b].0,
            forall|a: int|
                0 <= a < sorted@.len() ==> index@.dom().contains(#[trigger] sorted@[a].0)
                    && index@[sorted@[a].0] == sorted@[a].1@,
            forall|id: FieldId|
                index@.dom().contains(id) ==> exists|a: int|
                    0 <= a < sorted@.len() && #[trigger] sorted@[a].0 == id,
            forall|a: int| 0 <= a < i ==> !is_primary_key_candidate(#[trigger] sorted@[a].1@),
        decreases sorted.len() - i,
    {
        let lowercase = str_to_lowercase(sorted[i].1.as_str());
        if str_contains(lowercase.as_str(), DEFAULT_PRIMARY_KEY_NAME) {
            proof {
                let id = sorted@[i as int].0;
                assert(index@[id] == sorted@[i as int].1@);
                assert forall|lower: FieldId|
                    lower < id && index@.dom().contains(lower) implies !is_primary_key_candidate(
                    #[trigger] index@[lower],
                ) by {
                    let a = choose|a: int| 0 <= a < sorted@.len() && sorted@[a].0 == lower;
                    if a >= i {
                        assert(sorted@[i as int].0 <= sorted@[a].0);
                    }
                    assert(!is_primary_key_candidate(sorted@[a].1@));
                }
            }
            return Some(sorted[i].1.as_str());
        }
        i += 1;
    }
    proof {
        assert forall|id: FieldId| index@.dom().contains(id) implies !is_primary_key_candidate(
            #[trigger] index@[id],
        ) by {
            let a = choose|a: int| 0 <= a < sorted@.len() && sorted@[a].0 == id;
            assert(!is_primary_key_candidate(sorted@[a].1@));
        }
    }
    None
}

/// The name of the primary key: the one already chosen, else the
/// alternative, else the default name if identifiers may be generated.
pub open spec fn primary_key_name(
    primary_key: Option<Seq<char>>,
    alternative_name: Option<Seq<char>>,
    autogenerate_docids: bool,
) -> Option<Seq<char>> {
    match primary_key {
        Some(name) => Some(name),
        None => match alternative_name {
            Some(name) => Some(name),
            None => if autogenerate_docids {
                Some(DEFAULT_PRIMARY_KEY_NAME@)
            } else {
                None
            },
        },
    }
}

/// The view of an optional string slice.
pub open spec fn str_option_view(s: Option<&str>) -> Option<Seq<char>> {
    match s {
        Some(s) => Some(s@),
        None => None,
    }
}

/// The view of an optional string.
pub open spec fn string_option_view(s: Option<String>) -> Option<Seq<char>> {
    match s {
        Some(s) => Some(s@),
        None => None,
    }
}

/// Picks the primary key by `primary_key_name`, registers its name and
/// returns its id with the name. Without a name the registry is left
/// alone and the primary key is reported missing; a name for which no id
/// is left is reported as the attribute limit.
pub fn compute_primary_key_pair(
    primary_key: Option<&str>,
    fields_ids_map: &mut FieldsIdsMap,
    alternative_name: Option<String>,
    autogenerate_docids: bool,
) -> (pair: Result<(FieldId, String), TransformError>)
    requires
        old(fields_ids_map).wf(),
    ensures
        final(fields_ids_map).wf(),
        match primary_key_name(
            str_option_view(primary_key),
            string_option_view(alternative_name),
            autogenerate_docids,
        ) {
            None => pair == Err::<(FieldId, String), TransformError>(TransformError::MissingPrimaryKey) && final(fields_ids_map)@ == old(fields_ids_map)@,
            Some(name) => {
                &&& final(fields_ids_map)@ == with_name(old(fields_ids_map)@, name)
                &&& pair is Err <==> !has_name(old(fields_ids_map)@, name) && old(fields_ids_map)@.len() == MAX_FIELDS
                &&& pair matches Err(e) ==> e == TransformError::AttributeLimitReached
                &&& pair matches Ok((id, key)) ==> key@ == name && id < final(fields_ids_map)@.len() && final(fields_ids_map)@[id as int] == name
            },
        },
{
    match primary_key {
        Some(primary_key) => {
            match fields_ids_map.insert(primary_key) {
                Some(id) => Ok((id, primary_key.to_owned())),
                None => Err(TransformError::AttributeLimitReached),
            }
        },
        None => {
            let name = match alternative_name {
                Some(key) => key,
                None => {
                    if !autogenerate_docids {
                        // Without a primary key in the batch an error is
                        // returned: no document id is generated.
                        return Err(TransformError::MissingPrimaryKey);
                    }
                    DEFAULT_PRIMARY_KEY_NAME.to_owned()
                },
            };
            match fields_ids_map.insert(name.as_str()) {
                Some(id) => Ok((id, name)),
                None => Err(TransformError::AttributeLimitReached),
            }
        },
    }
}

} // verus!
