//! The metadata registry: which registered board, chip or API file a
//! project's target resolves to, and the schema check of metadata
//! documents.
use vstd::prelude::*;
use crate::text::{append_str, chars_of, string_from};
use crate::bsl::{strings_view, utf8_text};
use vstd::utf8::{valid_utf8, decode_utf8};
use crate::metadata::{normalize_req, normalize_requirement, parse_version, semver_matches, semver_version, version_req_matches};

verus! {

/// A metadata file found in a registry root: the root's place in the search
/// order, and the file's `kind`, `id` and `version` fields.
pub struct RegistryEntry {
    pub root: usize,
    pub kind: String,
    pub id: String,
    pub version: String,
}

/// An entry as plain values.
pub struct EntryV {
    pub root: nat,
    pub kind: Seq<char>,
    pub id: Seq<char>,
    pub version: Seq<char>,
}

pub open spec fn entry_view(e: RegistryEntry) -> EntryV {
    EntryV { root: e.root as nat, kind: e.kind@, id: e.id@, version: e.version@ }
}

pub open spec fn entries_view(v: Seq<RegistryEntry>) -> Seq<EntryV> {
    v.map_values(|e: RegistryEntry| entry_view(e))
}

/// Whether `semver::VersionReq::parse` accepts `req`.
pub uninterp spec fn semver_req_valid(req: Seq<char>) -> bool;

/// How `semver::Version::cmp` orders the versions `a` and `b` (-1, 0 or 1),
/// or `None` when either does not parse.
pub uninterp spec fn semver_order(a: Seq<char>, b: Seq<char>) -> Option<i8>;

/// Calls `semver::VersionReq::parse`; the contract names whether it
/// succeeds (the requirement grammar is not stated).
#[verifier::external_body]
fn requirement_valid(req: &str) -> (r: bool)
    ensures
        r == semver_req_valid(req@),
{
    semver::VersionReq::parse(req).is_ok()
}

/// Calls `semver::Version::parse` on both texts and compares the versions
/// with `Ord::cmp`, as -1, 0 or 1; the contract names the answer (SemVer
/// precedence is not stated).
#[verifier::external_body]
fn version_order(a: &str, b: &str) -> (r: Option<i8>)
    ensures
        r == semver_order(a@, b@),
{
    match (semver::Version::parse(a), semver::Version::parse(b)) {
        (Ok(x), Ok(y)) => match x.cmp(&y) {
            core::cmp::Ordering::Less => Some(-1),
            core::cmp::Ordering::Equal => Some(0),
            core::cmp::Ordering::Greater => Some(1),
        },
        _ => None,
    }
}

/// The entry is of `kind` and `id` and its version meets the (normalised)
/// requirement `req`.
pub open spec fn candidate(e: EntryV, kind: Seq<char>, id: Seq<char>, req: Seq<char>) -> bool {
    e.kind == kind && e.id == id && semver_matches(req, e.version) == Some(true)
}

/// `a` is preferred to `b`: an earlier root, or the same root and a higher
/// version.
pub open spec fn beats(a: EntryV, b: EntryV) -> bool {
    a.root < b.root || (a.root == b.root && semver_order(a.version, b.version) == Some(1i8))
}

/// The preferred candidate: going through the entries in order, a
/// candidate takes the place of the one kept so far only when it beats it
/// (so among equals the first stays).
pub open spec fn best_entry(es: Seq<EntryV>, kind: Seq<char>, id: Seq<char>, req: Seq<char>) -> Option<int>
    decreases es.len(),
{
    if es.len() == 0 {
        None
    } else {
        let i = es.len() - 1;
        let prev = best_entry(es.drop_last(), kind, id, req);
        if !candidate(es[i], kind, id, req) {
            prev
        } else {
            match prev {
                None => Some(i),
                Some(p) => if beats(es[i], es[p]) {
                    Some(i)
                } else {
                    Some(p)
                },
            }
        }
    }
}

/// Another candidate in the same root has the same version as entry `i`.
pub open spec fn duplicated(es: Seq<EntryV>, kind: Seq<char>, id: Seq<char>, req: Seq<char>, i: int) -> bool {
    exists|j: int|
        0 <= j < es.len() && j != i && candidate(#[trigger] es[j], kind, id, req) && es[j].root == es[i].root
            && semver_order(es[j].version, es[i].version) == Some(0i8)
}

/// A version as SemVer writes it, or the text itself when it does not parse.
pub open spec fn version_text(v: Seq<char>) -> Seq<char> {
    match semver_version(v) {
        Some(t) => t,
        None => v,
    }
}

/// The registry entry a target resolves to: the requirement must parse
/// (after [`normalize_req`]); then the preferred candidate (see
/// [`best_entry`]), refused when there is none or when its root holds its
/// version twice. `search` lists the roots searched, for the message.
pub open spec fn registry_choice(
    es: Seq<EntryV>,
    kind: Seq<char>,
    id: Seq<char>,
    requirement: Seq<char>,
    search: Seq<char>,
) -> Result<int, Seq<char>> {
    let req = normalize_req(requirement);
    if !semver_req_valid(req) {
        Err("无效版本约束 "@ + requirement)
    } else {
        match best_entry(es, kind, id, req) {
            None => Err(
                "META001: 在 metadata registry 中找不到 "@ + kind + " "@ + id + " ("@ + requirement + ")；搜索路径: "@
                    + search,
            ),
            Some(i) => if duplicated(es, kind, id, req, i) {
                Err("META001: "@ + kind + " "@ + id + " "@ + version_text(es[i].version) + " 存在重复注册"@)
            } else {
                Ok(i)
            },
        }
    }
}

spec fn opt_int(o: Option<usize>) -> Option<int> {
    match o {
        Some(x) => Some(x as int),
        None => None,
    }
}

fn is_candidate(e: &RegistryEntry, kind: &String, id: &String, req: &str) -> (r: bool)
    ensures
        r == candidate(entry_view(*e), kind@, id@, req@),
{
    e.kind == *kind && e.id == *id && match version_req_matches(req, e.version.as_str()) {
        Some(b) => b,
        None => false,
    }
}

/// The entry that a target of `kind` `id` with version requirement
/// `requirement` resolves to (see [`registry_choice`]).
pub fn choose_registry_entry(
    entries: &Vec<RegistryEntry>,
    kind: &str,
    id: &str,
    requirement: &str,
    search: &str,
) -> (r: Result<usize, String>)
    ensures
        match r {
            Ok(i) => registry_choice(entries_view(entries@), kind@, id@, requirement@, search@) == Ok::<int, Seq<char>>(
                i as int,
            ),
            Err(m) => registry_choice(entries_view(entries@), kind@, id@, requirement@, search@) == Err::<int, Seq<char>>(
                m@,
            ),
        },
{
    let ghost es = entries_view(entries@);
    let norm = normalize_requirement(chars_of(requirement).as_slice());
    let req = string_from(norm.as_slice());
    let ghost rq = req@;
    if !requirement_valid(req.as_str()) {
        let mut out = chars_of("无效版本约束 ");
        append_str(&mut out, requirement);
        return Err(string_from(out.as_slice()));
    }
    let kind_s = String::from_str(kind);
    let id_s = String::from_str(id);
    let mut best: Option<usize> = None;
    let mut i: usize = 0;
    proof {
        assert(es.take(0) =~= Seq::<EntryV>::empty());
    }
    while i < entries.len()
        invariant
            i <= entries@.len(),
            es == entries_view(entries@),
            rq == normalize_req(requirement@),
            req@ == rq,
            kind_s@ == kind@,
            id_s@ == id@,
            opt_int(best) == best_entry(es.take(i as int), kind@, id@, rq),
            match best {
                Some(b) => b < i,
                None => true,
            },
        decreases entries.len() - i,
    {
        proof {
            assert(es.take(i + 1).drop_last() =~= es.take(i as int));
            assert(es.take(i + 1)[i as int] == es[i as int]);
            assert(es[i as int] == entry_view(entries@[i as int]));
            match best {
                Some(b) => {
                    assert(es.take(i + 1)[b as int] == es[b as int]);
                    assert(es[b as int] == entry_view(entries@[b as int]));
                },
                None => {},
            }
        }
        if is_candidate(&entries[i], &kind_s, &id_s, req.as_str()) {
            match best {
                None => {
                    best = Some(i);
                },
                Some(b) => {
                    let better = entries[i].root < entries[b].root || (entries[i].root == entries[b].root && match version_order(
                        entries[i].version.as_str(),
                        entries[b].version.as_str(),
                    ) {
                        Some(o) => o == 1,
                        None => false,
                    });
                    if better {
                        best = Some(i);
                    }
                },
            }
        }
        i = i + 1;
    }
    proof {
        assert(es.take(i as int) =~= es);
    }
    let b = match best {
        None => {
            let mut out = chars_of("META001: 在 metadata registry 中找不到 ");
            append_str(&mut out, kind);
            append_str(&mut out, " ");
            append_str(&mut out, id);
            append_str(&mut out, " (");
            append_str(&mut out, requirement);
            append_str(&mut out, ")；搜索路径: ");
            append_str(&mut out, search);
            return Err(string_from(out.as_slice()));
        },
        Some(b) => b,
    };
    let mut dup = false;
    let mut j: usize = 0;
    while j < entries.len()
        invariant
            j <= entries@.len(),
            b < entries@.len(),
            es == entries_view(entries@),
            rq == normalize_req(requirement@),
            req@ == rq,
            kind_s@ == kind@,
            id_s@ == id@,
            dup == exists|k: int|
                0 <= k < j && k != b && candidate(#[trigger] es[k], kind@, id@, rq) && es[k].root == es[b as int].root
                    && semver_order(es[k].version, es[b as int].version) == Some(0i8),
        decreases entries.len() - j,
    {
        proof {
            assert(es[j as int] == entry_view(entries@[j as int]));
            assert(es[b as int] == entry_view(entries@[b as int]));
        }
        if j != b && is_candidate(&entries[j], &kind_s, &id_s, req.as_str()) && entries[j].root == entries[b].root
            && match version_order(entries[j].version.as_str(), entries[b].version.as_str()) {
            Some(o) => o == 0,
            None => false,
        } {
            dup = true;
        }
        j = j + 1;
    }
    if dup {
        proof {
            assert(es[b as int] == entry_view(entries@[b as int]));
        }
        let shown = match parse_version(entries[b].version.as_str()) {
            Some(t) => t,
            None => entries[b].version.clone(),
        };
        let mut out = chars_of("META001: ");
        append_str(&mut out, kind);
        append_str(&mut out, " ");
        append_str(&mut out, id);
        append_str(&mut out, " ");
        append_str(&mut out, shown.as_str());
        append_str(&mut out, " 存在重复注册");
        return Err(string_from(out.as_slice()));
    }
    Ok(b)
}

/// Why a document could not be checked against its schema.
#[derive(Clone, Copy, Debug, PartialEq, Eq, Structural)]
pub enum SchemaFault {
    /// The document is not JSON.
    DocumentNotJson,
    /// The schema is not JSON.
    SchemaNotJson,
    /// The schema does not compile.
    SchemaInvalid,
}

/// What checking the JSON text `doc` against the JSON schema text `schema`
/// with `jsonschema` reports: every violation as (instance path, message),
/// in the validator's order, or why no check was made.
pub uninterp spec fn schema_errors(schema: Seq<char>, doc: Seq<char>) -> Result<Seq<(Seq<char>, Seq<char>)>, SchemaFault>;

pub open spec fn schema_result_view(r: Result<Vec<(String, String)>, SchemaFault>) -> Result<
    Seq<(Seq<char>, Seq<char>)>,
    SchemaFault,
> {
    match r {
        Ok(v) => Ok(v@.map_values(|x: (String, String)| (x.0@, x.1@))),
        Err(f) => Err(f),
    }
}

/// Parses both texts with `serde_json::from_str` (the document first), builds
/// the validator with `jsonschema::validator_for` and lists
/// `Validator::iter_errors`, each as its instance path and its message, both
/// as displayed. The contract names the result; the JSON Schema rules are
/// not stated.
#[verifier::external_body]
fn schema_check(schema: &str, doc: &str) -> (r: Result<Vec<(String, String)>, SchemaFault>)
    ensures
        schema_result_view(r) == schema_errors(schema@, doc@),
{
    let Ok(doc) = serde_json::from_str::<serde_json::Value>(doc) else { return Err(SchemaFault::DocumentNotJson) };
    let Ok(schema) = serde_json::from_str::<serde_json::Value>(schema) else { return Err(SchemaFault::SchemaNotJson) };
    let Ok(validator) = jsonschema::validator_for(&schema) else { return Err(SchemaFault::SchemaInvalid) };
    Ok(validator.iter_errors(&doc).map(|e| (e.instance_path().to_string(), e.to_string())).collect())
}

/// A violation as the refusal shows it: `instance path: message`.
pub open spec fn violation_text(e: (Seq<char>, Seq<char>)) -> Seq<char> {
    e.0 + ": "@ + e.1
}

/// The violations as the refusal shows them, in order.
pub open spec fn violation_texts(es: Seq<(Seq<char>, Seq<char>)>) -> Seq<Seq<char>> {
    es.map_values(|e: (Seq<char>, Seq<char>)| violation_text(e))
}

/// `t` without one leading byte-order mark.
pub open spec fn without_bom(t: Seq<char>) -> Seq<char> {
    if t.len() > 0 && t[0] == '\u{feff}' {
        t.skip(1)
    } else {
        t
    }
}

/// The texts joined by `"; "`.
pub open spec fn joined(es: Seq<Seq<char>>) -> Seq<char>
    decreases es.len(),
{
    if es.len() == 0 {
        Seq::empty()
    } else if es.len() == 1 {
        es[0]
    } else {
        joined(es.drop_last()) + "; "@ + es.last()
    }
}

/// Most schema violations a message lists.
pub const SCHEMA_ERRORS_SHOWN: usize = 8;

/// A metadata document (`label`, read from `source`) checked against its
/// schema: without its byte-order mark it must be JSON, the schema must be
/// JSON and compile, and then it must have no violation; the refusal lists
/// the first [`SCHEMA_ERRORS_SHOWN`] violations. Accepted, the text without
/// its byte-order mark.
pub open spec fn document_check(text: Seq<char>, label: Seq<char>, source: Seq<char>, schema: Seq<char>) -> Result<
    Seq<char>,
    Seq<char>,
> {
    let t = without_bom(text);
    match schema_errors(schema, t) {
        Err(SchemaFault::DocumentNotJson) => Err("解析 "@ + label + " "@ + source),
        Err(SchemaFault::SchemaNotJson) => Err("内置元数据 Schema 无效"@),
        Err(SchemaFault::SchemaInvalid) => Err("编译内置元数据 Schema"@),
        Ok(es) => if es.len() == 0 {
            Ok(t)
        } else {
            Err(label + " Schema 校验失败 "@ + source + ": "@ + joined(
                violation_texts(es).take(if es.len() < SCHEMA_ERRORS_SHOWN { es.len() as int } else { SCHEMA_ERRORS_SHOWN as int }),
            ))
        },
    }
}

/// A metadata document checked against its schema (see [`document_check`]).
pub fn validate_document(text: &str, label: &str, source: &str, schema: &str) -> (r: Result<String, String>)
    ensures
        match r {
            Ok(t) => document_check(text@, label@, source@, schema@) == Ok::<Seq<char>, Seq<char>>(t@),
            Err(m) => document_check(text@, label@, source@, schema@) == Err::<Seq<char>, Seq<char>>(m@),
        },
{
    let v = chars_of(text);
    let t = if v.len() > 0 && v[0] == '\u{feff}' {
        let mut rest: Vec<char> = Vec::new();
        let mut i: usize = 1;
        while i < v.len()
            invariant
                1 <= i <= v@.len(),
                rest@ == v@.subrange(1, i as int),
            decreases v.len() - i,
        {
            rest.push(v[i]);
            i = i + 1;
            proof {
                assert(rest@ =~= v@.subrange(1, i as int));
            }
        }
        proof {
            assert(rest@ =~= v@.skip(1));
        }
        string_from(rest.as_slice())
    } else {
        String::from_str(text)
    };
    match schema_check(schema, t.as_str()) {
        Err(SchemaFault::DocumentNotJson) => {
            let mut out = chars_of("解析 ");
            append_str(&mut out, label);
            append_str(&mut out, " ");
            append_str(&mut out, source);
            Err(string_from(out.as_slice()))
        },
        Err(SchemaFault::SchemaNotJson) => Err(String::from_str("内置元数据 Schema 无效")),
        Err(SchemaFault::SchemaInvalid) => Err(String::from_str("编译内置元数据 Schema")),
        Ok(errors) => {
            if errors.len() == 0 {
                return Ok(t);
            }
            let n = if errors.len() < SCHEMA_ERRORS_SHOWN { errors.len() } else { SCHEMA_ERRORS_SHOWN };
            let ghost es = violation_texts(errors@.map_values(|x: (String, String)| (x.0@, x.1@)));
            let mut out = chars_of(label);
            append_str(&mut out, " Schema 校验失败 ");
            append_str(&mut out, source);
            append_str(&mut out, ": ");
            let ghost head = out@;
            let mut k: usize = 0;
            proof {
                assert(es.take(0) =~= Seq::<Seq<char>>::empty());
                assert(head + joined(es.take(0)) =~= head);
            }
            while k < n
                invariant
                    k <= n <= errors@.len(),
                    es == violation_texts(errors@.map_values(|x: (String, String)| (x.0@, x.1@))),
                    out@ == head + joined(es.take(k as int)),
                decreases n - k,
            {
                proof {
                    assert(es.take(k + 1).drop_last() =~= es.take(k as int));
                    assert(es.take(k + 1).last() == es[k as int]);
                    assert(es[k as int] == errors@[k as int].0@ + ": "@ + errors@[k as int].1@);
                    if k == 0 {
                        assert(es.take(1) =~= seq![es[0]]);
                    }
                }
                if k > 0 {
                    append_str(&mut out, "; ");
                }
                append_str(&mut out, errors[k].0.as_str());
                append_str(&mut out, ": ");
                append_str(&mut out, errors[k].1.as_str());
                k = k + 1;
                proof {
                    assert(out@ =~= head + joined(es.take(k as int)));
                }
            }
            Err(string_from(out.as_slice()))
        },
    }
}

/// An API document given as bytes: refused unless UTF-8, then checked as
/// [`document_check`] says.
pub open spec fn api_bytes_check(bytes: Seq<u8>, source: Seq<char>, schema: Seq<char>) -> Result<Seq<char>, Seq<char>> {
    if !valid_utf8(bytes) {
        Err("API "@ + source + " 不是 UTF-8"@)
    } else {
        document_check(decode_utf8(bytes), "API"@, source, schema)
    }
}

/// An API document given as bytes, checked against its schema (see
/// [`api_bytes_check`]); accepted, its text without the byte-order mark.
pub fn validate_api_bytes(bytes: &[u8], source: &str, schema: &str) -> (r: Result<String, String>)
    ensures
        match r {
            Ok(t) => api_bytes_check(bytes@, source@, schema@) == Ok::<Seq<char>, Seq<char>>(t@),
            Err(m) => api_bytes_check(bytes@, source@, schema@) == Err::<Seq<char>, Seq<char>>(m@),
        },
{
    match utf8_text(bytes) {
        None => {
            let mut out = chars_of("API ");
            append_str(&mut out, source);
            append_str(&mut out, " 不是 UTF-8");
            Err(string_from(out.as_slice()))
        },
        Some(text) => validate_document(text, "API", source, schema),
    }
}

} // verus!
