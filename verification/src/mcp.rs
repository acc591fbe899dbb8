use vstd::prelude::*;

use crate::error::Error;

verus! {

/// A JSON document as `serde_json` holds it.
#[verifier::external_type_specification]
#[verifier::external_body]
pub struct ExJsonValue(serde_json::Value);

/// What `serde_json::from_str` makes of a text: the document, or the
/// parser's message.
pub uninterp spec fn json_parsed(text: Seq<char>) -> Result<serde_json::Value, Seq<char>>;

/// The members of a JSON value that is an object (its keys and the values
/// under them); `None` for a value of any other kind.
pub uninterp spec fn json_members(v: serde_json::Value) -> Option<Map<Seq<char>, serde_json::Value>>;

/// The text that `serde_json::to_string_pretty` writes for a value.
pub uninterp spec fn json_pretty(v: serde_json::Value) -> Seq<char>;

/// Parses a JSON text with `serde_json::from_str`.
///
/// Claims that the result is the document or the parser's message that the
/// text gives, `json_parsed`: the parser reads nothing but the text.
#[verifier::external_body]
fn parse_json(text: &str) -> (r: Result<serde_json::Value, String>)
    ensures
        match r {
            Ok(v) => json_parsed(text@) == Ok::<serde_json::Value, Seq<char>>(v),
            Err(m) => json_parsed(text@) == Err::<serde_json::Value, Seq<char>>(m@),
        },
{
    match serde_json::from_str::<serde_json::Value>(text) {
        Ok(v) => Ok(v),
        Err(e) => Err(e.to_string()),
    }
}

/// A new empty JSON object, `Value::Object(Map::new())`.
///
/// Claims that it is an object without members.
#[verifier::external_body]
fn empty_object() -> (r: serde_json::Value)
    ensures
        json_members(r) == Some(Map::<Seq<char>, serde_json::Value>::empty()),
{
    serde_json::Value::Object(serde_json::Map::new())
}

/// `Value::is_object`.
///
/// Claims that it tells exactly the values that have members.
#[verifier::external_body]
fn is_object(v: &serde_json::Value) -> (b: bool)
    ensures
        b == json_members(*v) is Some,
{
    v.is_object()
}

/// `Value::get` with a string key, the value found taken by `clone`.
///
/// Claims what the source shows: the member under `key` when the value is an
/// object that has one, `None` otherwise (for any other kind of value too);
/// and that the clone is the same document as the member.
#[verifier::external_body]
fn member(v: &serde_json::Value, key: &str) -> (r: Option<serde_json::Value>)
    ensures
        r == json_member(*v, key@),
{
    v.get(key).cloned()
}

/// `Map::insert` on the members of an object, through `Value::as_object_mut`.
///
/// Claims that the object then holds `val` under `key` and every other
/// member as before.
#[verifier::external_body]
fn insert_member(v: &mut serde_json::Value, key: &str, val: serde_json::Value)
    requires
        json_members(*old(v)) is Some,
    ensures
        json_members(*final(v)) == Some(json_members(*old(v))->0.insert(key@, val)),
{
    if let Some(m) = v.as_object_mut() {
        m.insert(key.to_string(), val);
    }
}

/// Writes a document with `serde_json::to_string_pretty`.
///
/// Claims that the text is `json_pretty` of the document. For a `Value` the
/// call has no error to give: its keys are strings and it writes to memory,
/// so the error arm is never taken.
#[verifier::external_body]
fn pretty_json(v: &serde_json::Value) -> (s: String)
    ensures
        s@ == json_pretty(*v),
{
    match serde_json::to_string_pretty(v) {
        Ok(s) => s,
        Err(_) => String::new(),
    }
}

/// The member of `v` under `key`: `None` when `v` is not an object or has
/// no such member.
pub open spec fn json_member(v: serde_json::Value, key: Seq<char>) -> Option<serde_json::Value> {
    match json_members(v) {
        Some(m) => if m.dom().contains(key) {
            Some(m[key])
        } else {
            None
        },
        None => None,
    }
}

/// The `bears` entry of the seed document, at `[server_key]["bears"]`.
pub open spec fn seed_entry(seed: serde_json::Value, server_key: Seq<char>) -> Option<serde_json::Value> {
    match json_member(seed, server_key) {
        Some(servers) => json_member(servers, "bears"@),
        None => None,
    }
}

/// The members of the document the merge starts from: those of the
/// existing file's text, or none when the text is not JSON. `None` when the
/// text is JSON that is not an object.
pub open spec fn base_members(existing: Seq<char>) -> Option<Map<Seq<char>, serde_json::Value>> {
    match json_parsed(existing) {
        Ok(d) => json_members(d),
        Err(_) => Some(Map::empty()),
    }
}

/// The server entries the merge starts from: those under `server_key` in
/// the base document, none when it has no such key; `None` when the value
/// under `server_key` is not an object.
pub open spec fn base_servers(base: Map<Seq<char>, serde_json::Value>, server_key: Seq<char>) -> Option<
    Map<Seq<char>, serde_json::Value>,
> {
    if base.dom().contains(server_key) {
        json_members(base[server_key])
    } else {
        Some(Map::empty())
    }
}

/// `doc` is the merged document: the base document with `servers` under
/// `server_key`, where `servers` holds the base's server entries with `entry`
/// under `bears`, and `entry` is the seed's entry (an empty object where the
/// seed has none).
pub open spec fn merged_as(
    doc: serde_json::Value,
    servers: serde_json::Value,
    entry: serde_json::Value,
    existing: Seq<char>,
    server_key: Seq<char>,
    seed: serde_json::Value,
) -> bool {
    &&& base_members(existing) is Some
    &&& base_servers(base_members(existing)->0, server_key) is Some
    &&& match seed_entry(seed, server_key) {
        Some(b) => entry == b,
        None => json_members(entry) == Some(Map::<Seq<char>, serde_json::Value>::empty()),
    }
    &&& json_members(servers) == Some(
        base_servers(base_members(existing)->0, server_key)->0.insert("bears"@, entry),
    )
    &&& json_members(doc) == Some(base_members(existing)->0.insert(server_key, servers))
}

/// What merging the seed document `seed` into the existing file's text
/// gives: the errors for a base document or server value that is not an
/// object, else the merged document pretty-printed with a newline.
pub open spec fn merge_outcome(
    existing: Seq<char>,
    server_key: Seq<char>,
    seed: serde_json::Value,
    r: Result<String, Error>,
) -> bool {
    if base_members(existing) is None {
        r matches Err(Error::Json { reason }) && reason@ == "top-level JSON must be an object"@
    } else if base_servers(base_members(existing)->0, server_key) is None {
        r matches Err(Error::Json { reason }) && reason@ == "server key must be a JSON object"@
    } else {
        r matches Ok(out) && exists|
            doc: serde_json::Value,
            servers: serde_json::Value,
            entry: serde_json::Value,
        |
            #[trigger] merged_as(doc, servers, entry, existing, server_key, seed) && out@
                == json_pretty(doc) + "\n"@
    }
}

/// The text of the MCP configuration file once the `bears` server entry of
/// `seed_json` is merged into it. `existing` is the file's text, `None` when
/// there is no file: the file is then the seed text itself, verbatim.
///
/// Into an existing file, the seed's entry goes as follows. It sits at
/// `[server_key]["bears"]` (an empty object where the seed has none). It
/// replaces `[server_key]["bears"]` of the existing
/// document; every other key and every other server entry stays. A file
/// whose text is not JSON counts as an empty object. The document is written
/// pretty-printed, followed by a newline.
///
/// Fails when the seed is not JSON (with the parser's message), and, for an
/// existing file, when its document is JSON but not an object, and when its
/// value under `server_key` is not an object.
pub fn merged_mcp_document(existing: Option<&str>, server_key: &str, seed_json: &str) -> (r: Result<
    String,
    Error,
>)
    ensures
        match json_parsed(seed_json@) {
            Err(m) => r matches Err(Error::Json { reason }) && reason@ == m,
            Ok(seed) => match existing {
                None => r matches Ok(out) && out@ == seed_json@,
                Some(t) => merge_outcome(t@, server_key@, seed, r),
            },
        },
{
    let seed = match parse_json(seed_json) {
        Ok(v) => v,
        Err(m) => {
            return Err(Error::Json { reason: m });
        },
    };
    let text = match existing {
        None => {
            return Ok(seed_json.to_string());
        },
        Some(t) => t,
    };
    let ghost ex: Seq<char> = text@;
    let entry = match member(&seed, server_key) {
        Some(servers) => match member(&servers, "bears") {
            Some(b) => b,
            None => empty_object(),
        },
        None => empty_object(),
    };
    proof {
        reveal_strlit("bears");
        reveal_strlit("\n");
    }
    let mut doc = match parse_json(text) {
        Ok(d) => d,
        Err(_) => empty_object(),
    };
    assert(json_members(doc) == base_members(ex));
    if !is_object(&doc) {
        return Err(Error::Json { reason: "top-level JSON must be an object".to_string() });
    }
    let mut servers = match member(&doc, server_key) {
        Some(s) => s,
        None => empty_object(),
    };
    assert(json_members(servers) == base_servers(base_members(ex)->0, server_key@));
    if !is_object(&servers) {
        return Err(Error::Json { reason: "server key must be a JSON object".to_string() });
    }
    let ghost e = entry;
    insert_member(&mut servers, "bears", entry);
    let ghost s = servers;
    insert_member(&mut doc, server_key, servers);
    let mut out = pretty_json(&doc);
    crate::text::push_char(&mut out, '\n');
    proof {
        assert(merged_as(doc, s, e, ex, server_key@, seed));
        assert(out@ =~= json_pretty(doc) + "\n"@);
    }
    let r = Ok(out);
    assert(merge_outcome(ex, server_key@, seed, r));
    r
}

/// Merging replaces only the `bears` server entry: every other top-level key
/// of the base document keeps its value, every other server entry keeps its
/// value, and the merged document holds the servers under `server_key` and
/// the entry under `bears`.
pub proof fn lemma_merge_keeps_the_rest(
    doc: serde_json::Value,
    servers: serde_json::Value,
    entry: serde_json::Value,
    existing: Seq<char>,
    server_key: Seq<char>,
    seed: serde_json::Value,
    k: Seq<char>,
)
    requires
        merged_as(doc, servers, entry, existing, server_key, seed),
    ensures
        json_member(doc, server_key) == Some(servers),
        json_member(servers, "bears"@) == Some(entry),
        k != server_key && base_members(existing)->0.dom().contains(k) ==> json_member(doc, k)
            == Some(base_members(existing)->0[k]),
        k != server_key && !base_members(existing)->0.dom().contains(k) ==> json_member(doc, k)
            is None,
        k != "bears"@ && base_servers(base_members(existing)->0, server_key)->0.dom().contains(k)
            ==> json_member(servers, k) == Some(
            base_servers(base_members(existing)->0, server_key)->0[k],
        ),
{
}

} // verus!
