//! Classification of a decoded service reply: either a service-reported
//! error, a well-shaped list of category items, or a malformed payload.

use vstd::prelude::*;

verus! {

use crate::domain::{group_of, Synonyms, SynonymsV};
use vstd::string::StringExecFns;

/// The decoded body of a successful service reply.
pub struct WebResponse {
    pub response: Vec<ResponseItem>,
}

/// One entry of the reply's `response` array.
pub struct ResponseItem {
    pub list: ItemList,
}

/// The payload of one entry: a category label and its raw synonyms string.
pub struct ItemList {
    pub category: String,
    pub synonyms: String,
}

/// A decoded JSON-like payload, as the transport hands it over.  The
/// classifier only ever reads strings, arrays and objects; a number's
/// magnitude never matters to it, so the `Number` variant carries none.
pub enum JsonValue {
    Null,
    Bool(bool),
    Number,
    Text(String),
    Array(Vec<JsonValue>),
    Object(Vec<(String, JsonValue)>),
}

/// Why a query failed.
#[derive(Debug, PartialEq, Eq)]
pub enum ServiceError {
    /// The service itself signalled a problem (unknown word, bad
    /// credentials, quota); the message is passed through verbatim.
    Reported(String),
    /// The payload did not have the expected shape.
    MalformedResponse,
}

/// The value under `key` in an object's fields, taking the first match.
pub open spec fn obj_lookup(fields: Seq<(String, JsonValue)>, key: Seq<char>) -> Option<
    JsonValue,
>
    decreases fields.len(),
{
    if fields.len() == 0 {
        None
    } else if fields[0].0@ == key {
        Some(fields[0].1)
    } else {
        obj_lookup(fields.drop_first(), key)
    }
}

/// The payload's top-level `error` field, if the payload is an object
/// that has one.
pub open spec fn error_field(payload: JsonValue) -> Option<JsonValue> {
    match payload {
        JsonValue::Object(fields) => obj_lookup(fields@, "error"@),
        _ => None,
    }
}

/// The category and synonyms strings one `response` entry carries, if it
/// has the expected `{"list": {"category": ..., "synonyms": ...}}` shape.
pub open spec fn item_of(v: JsonValue) -> Option<(Seq<char>, Seq<char>)> {
    match v {
        JsonValue::Object(fields) => match obj_lookup(fields@, "list"@) {
            Some(JsonValue::Object(lf)) => match (
                obj_lookup(lf@, "category"@),
                obj_lookup(lf@, "synonyms"@),
            ) {
                (Some(JsonValue::Text(c)), Some(JsonValue::Text(s))) => Some((c@, s@)),
                _ => None,
            },
            _ => None,
        },
        _ => None,
    }
}

/// The items of the `response` array, provided every entry is well
/// shaped.
pub open spec fn items_of(elems: Seq<JsonValue>) -> Option<Seq<(Seq<char>, Seq<char>)>>
    decreases elems.len(),
{
    if elems.len() == 0 {
        Some(Seq::empty())
    } else {
        match (item_of(elems[0]), items_of(elems.drop_first())) {
            (Some(it), Some(rest)) => Some(seq![it] + rest),
            _ => None,
        }
    }
}

/// The items of the payload's `response` field, if the payload is an
/// object whose `response` field is an array of well-shaped entries.
pub open spec fn response_items(payload: JsonValue) -> Option<Seq<(Seq<char>, Seq<char>)>> {
    match payload {
        JsonValue::Object(fields) => match obj_lookup(fields@, "response"@) {
            Some(JsonValue::Array(elems)) => items_of(elems@),
            _ => None,
        },
        _ => None,
    }
}

/// Appending one entry extends the items if both sides are well shaped,
/// and spoils them if either is not.
pub proof fn lemma_items_of_push(elems: Seq<JsonValue>, v: JsonValue)
    ensures
        items_of(elems) is Some && item_of(v) is Some ==> items_of(elems.push(v)) == Some(
            (items_of(elems)->0).push(item_of(v)->0),
        ),
        items_of(elems) is None || item_of(v) is None ==> items_of(elems.push(v)) is None,
    decreases elems.len(),
{
    if elems.len() == 0 {
        assert(elems.push(v)[0] == v);
        assert(elems.push(v).drop_first() =~= Seq::<JsonValue>::empty());
        assert(items_of(Seq::<JsonValue>::empty()) == Some(
            Seq::<(Seq<char>, Seq<char>)>::empty(),
        ));
        assert(items_of(elems) == Some(Seq::<(Seq<char>, Seq<char>)>::empty()));
        match item_of(v) {
            Some(it) => {
                assert(items_of(elems.push(v)) == Some(
                    seq![it] + Seq::<(Seq<char>, Seq<char>)>::empty(),
                ));
                assert(seq![it] + Seq::<(Seq<char>, Seq<char>)>::empty() =~= Seq::<(
                    Seq<char>,
                    Seq<char>,
                )>::empty().push(it));
            },
            None => {
                assert(items_of(elems.push(v)) is None);
            },
        }
    } else {
        lemma_items_of_push(elems.drop_first(), v);
        assert(elems.push(v)[0] == elems[0]);
        assert(elems.push(v).drop_first() =~= elems.drop_first().push(v));
        match (item_of(elems[0]), items_of(elems.drop_first()), item_of(v)) {
            (Some(it0), Some(rest), Some(it)) => {
                assert(items_of(elems.drop_first().push(v)) == Some(rest.push(it)));
                assert(items_of(elems.push(v)) == Some(seq![it0] + rest.push(it)));
                assert(items_of(elems) == Some(seq![it0] + rest));
                assert(seq![it0] + rest.push(it) =~= (seq![it0] + rest).push(it));
            },
            (None, _, _) => {
                assert(items_of(elems) is None);
                assert(items_of(elems.push(v)) is None);
            },
            (Some(_), None, _) => {
                assert(items_of(elems) is None);
                assert(items_of(elems.drop_first().push(v)) is None);
                assert(items_of(elems.push(v)) is None);
            },
            (Some(_), Some(_), None) => {
                assert(items_of(elems.drop_first().push(v)) is None);
                assert(items_of(elems.push(v)) is None);
            },
        }
    }
}

/// One badly shaped entry spoils the whole array.
pub proof fn lemma_items_of_bad_index(elems: Seq<JsonValue>, k: int)
    requires
        0 <= k < elems.len(),
        item_of(elems[k]) is None,
    ensures
        items_of(elems) is None,
    decreases k,
{
    if k > 0 {
        lemma_items_of_bad_index(elems.drop_first(), k - 1);
    }
}

/// The value under `key` among an object's fields, taking the first
/// match, as [`obj_lookup`] describes it.
fn lookup<'a>(fields: &'a Vec<(String, JsonValue)>, key: &String) -> (r: Option<&'a JsonValue>)
    ensures
        match r {
            Some(v) => obj_lookup(fields@, key@) == Some(*v),
            None => obj_lookup(fields@, key@) is None,
        },
{
    let mut i: usize = 0;
    proof {
        assert(fields@.skip(0) =~= fields@);
    }
    while i < fields.len()
        invariant
            i <= fields@.len(),
            obj_lookup(fields@, key@) == obj_lookup(fields@.skip(i as int), key@),
        decreases fields@.len() - i,
    {
        proof {
            assert(fields@.skip(i as int)[0] == fields@[i as int]);
            assert(fields@.skip(i as int).drop_first() =~= fields@.skip(i as int + 1));
        }
        if fields[i].0 == *key {
            return Some(&fields[i].1);
        }
        i = i + 1;
    }
    proof {
        assert(fields@.skip(i as int) =~= Seq::<(String, JsonValue)>::empty());
    }
    None
}

/// Classify a decoded payload.  A payload that reports an error fails
/// with that message verbatim, whatever else it carries; otherwise a well
/// shaped `response` array yields its groups in order; anything else is a
/// malformed response.
pub fn classify(payload: &JsonValue) -> (r: Result<Vec<Synonyms>, ServiceError>)
    ensures
        (match error_field(*payload) {
            Some(e) => match e {
                JsonValue::Text(m) => r matches Err(ServiceError::Reported(t)) && t@ == m@,
                _ => r matches Err(ServiceError::MalformedResponse),
            },
            None => match response_items(*payload) {
                Some(items) => r matches Ok(gs) && gs.deep_view() == items.map_values(
                    |p: (Seq<char>, Seq<char>)| group_of(p.0, p.1),
                ),
                None => r matches Err(ServiceError::MalformedResponse),
            },
        }),
{
    let fields = match payload {
        JsonValue::Object(fields) => fields,
        _ => { return Err(ServiceError::MalformedResponse) },
    };
    let error_key = String::from_str("error");
    match lookup(fields, &error_key) {
        Some(ev) => match ev {
            JsonValue::Text(m) => { return Err(ServiceError::Reported(m.clone())) },
            _ => { return Err(ServiceError::MalformedResponse) },
        },
        None => {},
    }
    let response_key = String::from_str("response");
    let elems = match lookup(fields, &response_key) {
        Some(rv) => match rv {
            JsonValue::Array(elems) => elems,
            _ => { return Err(ServiceError::MalformedResponse) },
        },
        None => { return Err(ServiceError::MalformedResponse) },
    };
    let list_key = String::from_str("list");
    let category_key = String::from_str("category");
    let synonyms_key = String::from_str("synonyms");
    let ghost gmap = |p: (Seq<char>, Seq<char>)| group_of(p.0, p.1);
    let mut groups: Vec<Synonyms> = Vec::new();
    let mut k: usize = 0;
    proof {
        assert(elems@.take(0) =~= Seq::<JsonValue>::empty());
        assert(items_of(Seq::<JsonValue>::empty()) == Some(
            Seq::<(Seq<char>, Seq<char>)>::empty(),
        ));
        assert(groups.deep_view() =~= Seq::<SynonymsV>::empty());
        assert(Seq::<(Seq<char>, Seq<char>)>::empty().map_values(gmap)
            =~= Seq::<SynonymsV>::empty());
    }
    while k < elems.len()
        invariant
            k <= elems@.len(),
            error_field(*payload) is None,
            response_items(*payload) == items_of(elems@),
            items_of(elems@.take(k as int)) is Some,
            groups.deep_view() == (items_of(elems@.take(k as int))->0).map_values(gmap),
            gmap == (|p: (Seq<char>, Seq<char>)| group_of(p.0, p.1)),
            list_key@ == "list"@,
            category_key@ == "category"@,
            synonyms_key@ == "synonyms"@,
        decreases elems@.len() - k,
    {
        let entry_fields = match &elems[k] {
            JsonValue::Object(f) => f,
            _ => {
                proof {
                    lemma_items_of_bad_index(elems@, k as int);
                }
                return Err(ServiceError::MalformedResponse);
            },
        };
        proof {
            assert(elems@[k as int] matches JsonValue::Object(f) && f@ == entry_fields@);
        }
        let list_value = match lookup(entry_fields, &list_key) {
            Some(v) => v,
            None => {
                proof {
                    lemma_items_of_bad_index(elems@, k as int);
                }
                return Err(ServiceError::MalformedResponse);
            },
        };
        let list_fields = match list_value {
            JsonValue::Object(f) => f,
            _ => {
                proof {
                    lemma_items_of_bad_index(elems@, k as int);
                }
                return Err(ServiceError::MalformedResponse);
            },
        };
        let category = match lookup(list_fields, &category_key) {
            Some(v) => match v {
                JsonValue::Text(c) => c,
                _ => {
                    proof {
                        lemma_items_of_bad_index(elems@, k as int);
                    }
                    return Err(ServiceError::MalformedResponse);
                },
            },
            None => {
                proof {
                    lemma_items_of_bad_index(elems@, k as int);
                }
                return Err(ServiceError::MalformedResponse);
            },
        };
        let synonyms = match lookup(list_fields, &synonyms_key) {
            Some(v) => match v {
                JsonValue::Text(s) => s,
                _ => {
                    proof {
                        lemma_items_of_bad_index(elems@, k as int);
                    }
                    return Err(ServiceError::MalformedResponse);
                },
            },
            None => {
                proof {
                    lemma_items_of_bad_index(elems@, k as int);
                }
                return Err(ServiceError::MalformedResponse);
            },
        };
        let group = Synonyms::from(
            ResponseItem {
                list: ItemList { category: category.clone(), synonyms: synonyms.clone() },
            },
        );
        let ghost prevg = groups.deep_view();
        let ghost its = items_of(elems@.take(k as int))->0;
        groups.push(group);
        proof {
            assert(item_of(elems@[k as int]) == Some((category@, synonyms@)));
            lemma_items_of_push(elems@.take(k as int), elems@[k as int]);
            assert(elems@.take(k as int).push(elems@[k as int]) =~= elems@.take(k as int + 1));
            assert(items_of(elems@.take(k as int + 1)) == Some(its.push((category@, synonyms@))));
            assert(groups.deep_view() =~= prevg.push(group_of(category@, synonyms@)));
            assert(its.push((category@, synonyms@)).map_values(gmap) =~= its.map_values(
                gmap,
            ).push(gmap((category@, synonyms@))));
        }
        k = k + 1;
    }
    proof {
        assert(elems@.take(k as int) =~= elems@);
    }
    Ok(groups)
}

} // verus!
