//! The boundary to the format libraries: parsing text into a [`Node`] tree
//! and writing a tree back out. Each wrapper's contract speaks of an
//! uninterpreted name for what the format library yields on its argument;
//! everything past the bare calls — including whether an emitted text
//! round-trips to the same tree — is decided in verified code.

use vstd::prelude::*;

use crate::error::SyncError;
use crate::tree::{node_view, node_views_equal, Node, NodeView};

verus! {

/// What JSON parsing yields on a text: its document tree, or nothing when
/// the text is not valid JSON.
pub uninterp spec fn json_doc(s: Seq<char>) -> Option<NodeView>;

/// What YAML parsing yields on a text.
pub uninterp spec fn yaml_doc(s: Seq<char>) -> Option<NodeView>;

/// What TOML parsing yields on a text.
pub uninterp spec fn toml_doc(s: Seq<char>) -> Option<NodeView>;

/// What CSV reading yields on a text: the data rows (after the header),
/// each a sequence of fields, or nothing when a record is malformed.
pub uninterp spec fn csv_rows(s: Seq<char>) -> Option<Seq<Seq<Seq<char>>>>;

/// What the JSON writer yields on a tree: its text, or nothing when the
/// writer refuses the tree. The tree value carries its opaque leaves, so
/// the text is a function of the tree alone.
pub uninterp spec fn json_emitted(n: Node) -> Option<Seq<char>>;

/// What the YAML writer yields on a tree.
pub uninterp spec fn yaml_emitted(n: Node) -> Option<Seq<char>>;

/// What the TOML writer yields on a tree.
pub uninterp spec fn toml_emitted(n: Node) -> Option<Seq<char>>;

/// True when the format's writer accepts the tree and its output parses
/// back to the same document: exactly the condition under which the
/// format's text writer succeeds.
pub open spec fn writer_ok(format: crate::target_files::TargetFileFormat, n: Node) -> bool {
    match format {
        crate::target_files::TargetFileFormat::Json => json_emitted(n) is Some && json_doc(
            json_emitted(n)->0,
        ) == Some(node_view(n)),
        crate::target_files::TargetFileFormat::Yaml => yaml_emitted(n) is Some && yaml_doc(
            yaml_emitted(n)->0,
        ) == Some(node_view(n)),
        crate::target_files::TargetFileFormat::Toml => toml_emitted(n) is Some && toml_doc(
            toml_emitted(n)->0,
        ) == Some(node_view(n)),
        crate::target_files::TargetFileFormat::Csv => true,
    }
}

/// The text of a node's key when it is a scalar string, used when a tree
/// is written back into a format whose keys are plain strings.
pub fn key_string(n: &Node) -> (r: String)
    ensures
        node_view(*n) matches NodeView::Str(s) ==> r@ == s,
{
    match n {
        Node::Str(s) => s.clone(),
        _ => String::new(),
    }
}

/// Relies on serde_json::Value: turns a parsed JSON value into the engine's
/// tree, keeping non-string scalars as opaque leaves.
#[verifier::external_body]
fn json_to_node(v: serde_json::Value) -> Node {
    match v {
        serde_json::Value::String(s) => Node::Str(s),
        serde_json::Value::Array(a) => Node::List(a.into_iter().map(json_to_node).collect()),
        serde_json::Value::Object(o) => Node::Entries(
            o.into_iter().map(|(k, v)| (Node::Str(k), json_to_node(v))).collect(),
        ),
        other => Node::RawJson(other),
    }
}

/// Relies on serde_json::Value: rebuilds a JSON value from the engine's
/// tree, the inverse of the conversion above.
#[verifier::external_body]
fn node_to_json(n: &Node) -> serde_json::Value {
    match n {
        Node::Str(s) => serde_json::Value::String(s.clone()),
        Node::List(items) => serde_json::Value::Array(items.iter().map(node_to_json).collect()),
        Node::Entries(kvs) => serde_json::Value::Object(
            kvs.iter().map(|(k, v)| (key_string(k), node_to_json(v))).collect(),
        ),
        Node::RawJson(v) => v.clone(),
        _ => serde_json::Value::Null,
    }
}

/// Relies on serde_json::from_str: parses the text into a JSON document,
/// failing exactly when the text is not valid JSON.
#[verifier::external_body]
pub fn parse_json(text: &str) -> (r: Result<Node, SyncError>)
    ensures
        r matches Ok(n) ==> json_doc(text@) == Some(node_view(n)),
        r is Ok <==> json_doc(text@) is Some,
        r matches Err(e) ==> e == SyncError::ParseError,
{
    match serde_json::from_str::<serde_json::Value>(text) {
        Ok(v) => Ok(json_to_node(v)),
        Err(_) => Err(SyncError::ParseError),
    }
}

/// Relies on serde_json::to_string_pretty: writes the tree as JSON text.
/// The writer is deterministic (object keys are kept sorted), so its
/// result is named and nothing more is assumed of it.
#[verifier::external_body]
fn emit_json(n: &Node) -> (r: Result<String, SyncError>)
    ensures
        r is Ok <==> json_emitted(*n) is Some,
        r matches Ok(s) ==> s@ == json_emitted(*n)->0,
        r matches Err(e) ==> e == SyncError::ParseError,
{
    match serde_json::to_string_pretty(&node_to_json(n)) {
        Ok(t) => Ok(t),
        Err(_) => Err(SyncError::ParseError),
    }
}

/// Writes the tree as JSON and accepts the text only after parsing it back
/// yields the same document, so an accepted text's document is exactly the
/// tree's view. Succeeds exactly when the writer accepts the tree and its
/// output round-trips.
pub fn to_json_text(n: &Node) -> (r: Result<String, SyncError>)
    ensures
        r is Ok <==> writer_ok(crate::target_files::TargetFileFormat::Json, *n),
        r matches Ok(s) ==> s@ == json_emitted(*n)->0 && json_doc(s@) == Some(node_view(*n)),
        r matches Err(e) ==> e == SyncError::ParseError,
{
    let text = match emit_json(n) {
        Ok(t) => t,
        Err(e) => {
            return Err(e);
        },
    };
    let reparsed = match parse_json(text.as_str()) {
        Ok(m) => m,
        Err(_) => {
            return Err(SyncError::ParseError);
        },
    };
    if node_views_equal(&reparsed, n) {
        Ok(text)
    } else {
        Err(SyncError::ParseError)
    }
}

/// Relies on serde_yaml_ng::Value: turns a parsed YAML value into the
/// engine's tree, keeping non-string scalars as opaque leaves.
#[verifier::external_body]
fn yaml_to_node(v: serde_yaml_ng::Value) -> Node {
    match v {
        serde_yaml_ng::Value::String(s) => Node::Str(s),
        serde_yaml_ng::Value::Sequence(a) => Node::List(
            a.into_iter().map(yaml_to_node).collect(),
        ),
        serde_yaml_ng::Value::Mapping(m) => Node::Entries(
            m.into_iter().map(|(k, v)| (yaml_to_node(k), yaml_to_node(v))).collect(),
        ),
        other => Node::RawYaml(other),
    }
}

/// Relies on serde_yaml_ng::Value: rebuilds a YAML value from the engine's
/// tree, the inverse of the conversion above.
#[verifier::external_body]
fn node_to_yaml(n: &Node) -> serde_yaml_ng::Value {
    match n {
        Node::Str(s) => serde_yaml_ng::Value::String(s.clone()),
        Node::List(items) => serde_yaml_ng::Value::Sequence(
            items.iter().map(node_to_yaml).collect(),
        ),
        Node::Entries(kvs) => serde_yaml_ng::Value::Mapping(
            kvs.iter().map(|(k, v)| (node_to_yaml(k), node_to_yaml(v))).collect(),
        ),
        Node::RawYaml(v) => v.clone(),
        _ => serde_yaml_ng::Value::Null,
    }
}

/// Relies on serde_yaml_ng::from_str: parses the text into a YAML document,
/// failing exactly when the text is not valid YAML.
#[verifier::external_body]
pub fn parse_yaml(text: &str) -> (r: Result<Node, SyncError>)
    ensures
        r matches Ok(n) ==> yaml_doc(text@) == Some(node_view(n)),
        r is Ok <==> yaml_doc(text@) is Some,
        r matches Err(e) ==> e == SyncError::ParseError,
{
    match serde_yaml_ng::from_str::<serde_yaml_ng::Value>(text) {
        Ok(v) => Ok(yaml_to_node(v)),
        Err(_) => Err(SyncError::ParseError),
    }
}

/// Relies on serde_yaml_ng::to_string: writes the tree as YAML text. The
/// writer is deterministic, so its result is named and nothing more is
/// assumed of it.
#[verifier::external_body]
fn emit_yaml(n: &Node) -> (r: Result<String, SyncError>)
    ensures
        r is Ok <==> yaml_emitted(*n) is Some,
        r matches Ok(s) ==> s@ == yaml_emitted(*n)->0,
        r matches Err(e) ==> e == SyncError::ParseError,
{
    match serde_yaml_ng::to_string(&node_to_yaml(n)) {
        Ok(t) => Ok(t),
        Err(_) => Err(SyncError::ParseError),
    }
}

/// Writes the tree as YAML and accepts the text only after parsing it back
/// yields the same document. Succeeds exactly when the writer accepts the
/// tree and its output round-trips.
pub fn to_yaml_text(n: &Node) -> (r: Result<String, SyncError>)
    ensures
        r is Ok <==> writer_ok(crate::target_files::TargetFileFormat::Yaml, *n),
        r matches Ok(s) ==> s@ == yaml_emitted(*n)->0 && yaml_doc(s@) == Some(node_view(*n)),
        r matches Err(e) ==> e == SyncError::ParseError,
{
    let text = match emit_yaml(n) {
        Ok(t) => t,
        Err(e) => {
            return Err(e);
        },
    };
    let reparsed = match parse_yaml(text.as_str()) {
        Ok(m) => m,
        Err(_) => {
            return Err(SyncError::ParseError);
        },
    };
    if node_views_equal(&reparsed, n) {
        Ok(text)
    } else {
        Err(SyncError::ParseError)
    }
}

/// Relies on toml::Value: turns a parsed TOML value into the engine's
/// tree, keeping non-string scalars as opaque leaves.
#[verifier::external_body]
fn toml_to_node(v: toml::Value) -> Node {
    match v {
        toml::Value::String(s) => Node::Str(s),
        toml::Value::Array(a) => Node::List(a.into_iter().map(toml_to_node).collect()),
        toml::Value::Table(t) => Node::Entries(
            t.into_iter().map(|(k, v)| (Node::Str(k), toml_to_node(v))).collect(),
        ),
        other => Node::RawToml(other),
    }
}

/// Relies on toml::Value: rebuilds a TOML value from the engine's tree,
/// the inverse of the conversion above.
#[verifier::external_body]
fn node_to_toml(n: &Node) -> toml::Value {
    match n {
        Node::Str(s) => toml::Value::String(s.clone()),
        Node::List(items) => toml::Value::Array(items.iter().map(node_to_toml).collect()),
        Node::Entries(kvs) => toml::Value::Table(
            kvs.iter().map(|(k, v)| (key_string(k), node_to_toml(v))).collect(),
        ),
        Node::RawToml(v) => v.clone(),
        _ => toml::Value::String(String::new()),
    }
}

/// Relies on toml::from_str: parses the text into a TOML document, failing
/// exactly when the text is not valid TOML.
#[verifier::external_body]
pub fn parse_toml(text: &str) -> (r: Result<Node, SyncError>)
    ensures
        r matches Ok(n) ==> toml_doc(text@) == Some(node_view(n)),
        r is Ok <==> toml_doc(text@) is Some,
        r matches Err(e) ==> e == SyncError::ParseError,
{
    match toml::from_str::<toml::Value>(text) {
        Ok(v) => Ok(toml_to_node(v)),
        Err(_) => Err(SyncError::ParseError),
    }
}

/// Relies on toml::to_string_pretty: writes the tree as TOML text. The
/// writer is deterministic, so its result is named and nothing more is
/// assumed of it.
#[verifier::external_body]
fn emit_toml(n: &Node) -> (r: Result<String, SyncError>)
    ensures
        r is Ok <==> toml_emitted(*n) is Some,
        r matches Ok(s) ==> s@ == toml_emitted(*n)->0,
        r matches Err(e) ==> e == SyncError::ParseError,
{
    match toml::to_string_pretty(&node_to_toml(n)) {
        Ok(t) => Ok(t),
        Err(_) => Err(SyncError::ParseError),
    }
}

/// Writes the tree as TOML and accepts the text only after parsing it back
/// yields the same document. Succeeds exactly when the writer accepts the
/// tree and its output round-trips.
pub fn to_toml_text(n: &Node) -> (r: Result<String, SyncError>)
    ensures
        r is Ok <==> writer_ok(crate::target_files::TargetFileFormat::Toml, *n),
        r matches Ok(s) ==> s@ == toml_emitted(*n)->0 && toml_doc(s@) == Some(node_view(*n)),
        r matches Err(e) ==> e == SyncError::ParseError,
{
    let text = match emit_toml(n) {
        Ok(t) => t,
        Err(e) => {
            return Err(e);
        },
    };
    let reparsed = match parse_toml(text.as_str()) {
        Ok(m) => m,
        Err(_) => {
            return Err(SyncError::ParseError);
        },
    };
    if node_views_equal(&reparsed, n) {
        Ok(text)
    } else {
        Err(SyncError::ParseError)
    }
}

/// Relies on csv::Reader: reads the text's records after its header line;
/// any malformed record fails the whole read.
#[verifier::external_body]
pub fn parse_csv_records(text: &str) -> (r: Result<Vec<Vec<String>>, SyncError>)
    ensures
        r matches Ok(rows) ==> csv_rows(text@) == Some(rows.deep_view()),
        r is Ok <==> csv_rows(text@) is Some,
        r matches Err(e) ==> e == SyncError::ParseError,
{
    let mut rdr = csv::Reader::from_reader(text.as_bytes());
    let mut out: Vec<Vec<String>> = Vec::new();
    for rec in rdr.records() {
        match rec {
            Ok(row) => out.push(row.iter().map(|f| f.to_string()).collect()),
            Err(_) => return Err(SyncError::ParseError),
        }
    }
    Ok(out)
}

} // verus!
