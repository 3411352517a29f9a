//! File-level YAML helpers: what a file's text means, and the text that a
//! document is written as, with a `# yaml-language-server: $schema=…` header so
//! editors pick up completion.
//!
//! The schema header points at `./schemas/<device>-<area>.schema.json`, where a
//! device keeps its generated schemas.

use vstd::prelude::*;
use vstd::string::*;

use crate::text::{self, prefixed};
use crate::value::{Doc, Tree};
use crate::yaml;

verus! {

/// The schema-hint comment line for an area's YAML file.
pub open spec fn header_text(device: Seq<char>, area: Seq<char>) -> Seq<char> {
    "# yaml-language-server: $schema=./schemas/"@ + device + "-"@ + area + ".schema.json"@
}

/// The schema-hint comment line for an area's YAML file.
pub fn schema_header(device: &str, area: &str) -> (r: String)
    ensures
        r@ == header_text(device@, area@),
{
    let mut out = "# yaml-language-server: $schema=./schemas/".to_owned();
    out.append(device);
    out.append("-");
    out.append(area);
    out.append(".schema.json");
    out
}

/// How a failed step on a path reads.
pub open spec fn step_failure(step: Seq<char>, path: Seq<char>, reason: Seq<char>) -> Seq<char> {
    step + path + ": "@ + reason
}

/// How a failed step on a path reads, e.g. `reading a.yaml: no such file`.
pub fn step_failed(step: &str, path: &str, reason: &str) -> (r: String)
    ensures
        r@ == step_failure(step@, path@, reason@),
{
    let mut out = step.to_owned();
    out.append(path);
    out.append(": ");
    out.append(reason);
    out
}

/// What the attempt to read a file means: the document in it, or how the failure
/// to read or parse it reads.
pub open spec fn value_in_file(path: Seq<char>, content: Result<Seq<char>, Seq<char>>) -> Result<Tree, Seq<char>> {
    match content {
        Ok(text) => match yaml::parsed(text) {
            Ok(t) => Ok(t),
            Err(m) => Err(step_failure("parsing YAML from "@, path, m)),
        },
        Err(reason) => Err(step_failure("reading "@, path, reason)),
    }
}

/// Parse what was read from a YAML/JSON file: its text, or the reason why it
/// could not be read.
pub fn read_value(path: &str, content: Result<String, String>) -> (r: Result<Doc, String>)
    ensures
        match r {
            Ok(doc) => value_in_file(path@, text::outcome(content)) == Ok::<Tree, Seq<char>>(doc@),
            Err(m) => value_in_file(path@, text::outcome(content)) == Err::<Tree, Seq<char>>(m@),
        },
{
    match content {
        Ok(text) => match yaml::parse(text.as_str()) {
            Ok(doc) => Ok(doc),
            Err(m) => Err(step_failed("parsing YAML from ", path, m.as_str())),
        },
        Err(reason) => Err(step_failed("reading ", path, reason.as_str())),
    }
}

/// The schema header, then a document's text.
pub open spec fn headed(device: Seq<char>, area: Seq<char>, body: Seq<char>) -> Seq<char> {
    header_text(device, area).push('\n') + body
}

/// Put the schema header for `device`/`area` before a document's text.
pub fn with_header(device: &str, area: &str, body: &str) -> (r: String)
    ensures
        r@ == headed(device@, area@, body@),
{
    let mut out = schema_header(device, area);
    out.push('\n');
    out.append(body);
    out
}

/// The text that a document is written as: the schema header, then the document.
/// An error is how the failure to render it reads.
pub open spec fn file_content(device: Seq<char>, area: Seq<char>, doc: Tree) -> Result<Seq<char>, Seq<char>> {
    match yaml::rendered(doc) {
        Ok(body) => Ok(headed(device, area, body)),
        Err(m) => Err("serialize document: "@ + m),
    }
}

/// The text that a document is written as, with the schema header for
/// `device`/`area` before it.
pub fn file_text(device: &str, area: &str, doc: &Doc) -> (r: Result<String, String>)
    ensures
        text::outcome(r) == file_content(device@, area@, doc@),
{
    match yaml::render(doc) {
        Ok(body) => Ok(with_header(device, area, body.as_str())),
        Err(m) => Err(prefixed("serialize document: ", m.as_str())),
    }
}

}
