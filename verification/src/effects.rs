use vstd::prelude::*;

verus! {

/// What parsing a document and reprinting it returns: `None` when the text
/// is not well-formed JSON, else the value printed back compactly. The
/// result depends on the text alone.
pub uninterp spec fn json_reformat(s: Seq<char>) -> Option<Seq<char>>;

/// Relies on serde_json::from_str::<Value> and serde_json::Value::to_string:
/// parsing depends on the text alone, and printing a parsed value is
/// deterministic (the default map representation keeps object keys sorted).
#[verifier::external_body]
pub(crate) fn reformat_json(s: &String) -> (r: Option<String>)
    ensures
        r.deep_view() == json_reformat(s@),
{
    match serde_json::from_str::<serde_json::Value>(s) {
        Ok(v) => Some(v.to_string()),
        Err(_) => None,
    }
}

/// Relies on uuid::Uuid::new_v4 and its Display form: a random version-4
/// UUID printed as 36 hyphenated characters. Nothing is assumed about which
/// id comes back, so callers must check it against the store themselves.
#[verifier::external_body]
pub(crate) fn fresh_board_id() -> (r: String)
    ensures
        r@.len() == 36,
{
    uuid::Uuid::new_v4().to_string()
}

/// Relies on chrono::Utc::now and DateTime::timestamp_millis: the current
/// wall-clock time in milliseconds since the Unix epoch. Nothing is assumed
/// about the value.
#[verifier::external_body]
pub(crate) fn now_millis() -> i64 {
    chrono::Utc::now().timestamp_millis()
}

/// What trimming a text returns: the text without its leading and
/// trailing Unicode whitespace. The result depends on the text alone.
pub uninterp spec fn unicode_trim(s: Seq<char>) -> Seq<char>;

/// Relies on str::trim: Unicode-aware, locale-independent, and a function
/// of the text alone.
#[verifier::external_body]
pub(crate) fn trim_text(s: &String) -> (r: String)
    ensures
        r@ == unicode_trim(s@),
{
    s.trim().to_owned()
}

/// What lowercasing a text returns: its Unicode lowercase form, as
/// `str::to_lowercase` defines it. The result depends on the text alone.
pub uninterp spec fn unicode_lower(s: Seq<char>) -> Seq<char>;

/// Relies on str::to_lowercase: Unicode-aware, locale-independent, and a
/// function of the text alone.
#[verifier::external_body]
pub(crate) fn lower_text(s: &String) -> (r: String)
    ensures
        r@ == unicode_lower(s@),
{
    s.to_lowercase()
}

} // verus!
