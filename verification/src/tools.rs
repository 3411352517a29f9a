//! The tools of a server: their arguments, what is assumed where one is left
//! out, and what each asks of the [`DeviceHandle`].

use vstd::prelude::*;
use vstd::string::*;

use crate::catalog::Catalogs;
use crate::device::Device;
use crate::handle::{self, DeviceHandle};
use crate::plan::{self, DumpPlan, SyncPlan};
use crate::search;
use crate::text;
use crate::value::Doc;

verus! {

/// How many entries are returned where no limit is given.
pub const DEFAULT_LIMIT: usize = 50;

/// What to search the parameters for.
#[derive(Debug)]
pub struct SearchParamsArgs {
    /// Case-insensitive text matched against a parameter's path, label, group, and
    /// help. Omit to list everything (subject to `limit`).
    pub query: Option<String>,
    /// Restrict to one display group, e.g. `"Filter and EG"`.
    pub group: Option<String>,
    /// Maximum entries to return (default 50).
    pub limit: Option<usize>,
}

/// Which entries of a catalog to list.
#[derive(Debug)]
pub struct GetCatalogArgs {
    /// Catalog name, e.g. `"voices"`.
    pub name: String,
    /// Case-insensitive substring an entry must contain to be returned.
    pub filter: Option<String>,
    /// Maximum entries to return (default 50).
    pub limit: Option<usize>,
    /// Entries to skip before applying `limit` (default 0).
    pub offset: Option<usize>,
}

/// Which document to validate.
#[derive(Debug)]
pub struct ValidateArgs {
    /// Which area the document belongs to, e.g. `"live-set"`.
    pub area: String,
    /// The document, as YAML (JSON is accepted — YAML is a superset).
    pub document: String,
}

/// Which document to resolve.
#[derive(Debug)]
pub struct ResolveNamesArgs {
    /// A document (possibly partial) using value *names*, as YAML or JSON.
    pub document: String,
}

/// Which area to read.
#[derive(Debug)]
pub struct DumpArgs {
    /// Which area to read off the device, e.g. `"live-set"`.
    pub area: String,
}

/// Which document to write.
#[derive(Debug)]
pub struct SyncArgs {
    /// Which area to write, e.g. `"live-set"`.
    pub area: String,
    /// The document, as YAML or JSON. May be partial (it is merged over the
    /// factory default) and may use value names (they are resolved for you).
    pub document: String,
    /// Read the area back afterwards and confirm it matches. Recommended.
    pub verify: Option<bool>,
    /// Also commit the write to persistent storage at this destination.
    /// DESTRUCTIVE: overwrites that saved slot for good.
    pub store: Option<String>,
}

/// The number given, or the one assumed.
pub open spec fn or_else(given: Option<usize>, assumed: usize) -> usize {
    match given {
        Some(n) => n,
        None => assumed,
    }
}

fn given_or(given: Option<usize>, assumed: usize) -> (r: usize)
    ensures
        r == or_else(given, assumed),
{
    match given {
        Some(n) => n,
        None => assumed,
    }
}

/// The text in an optional string, borrowed.
fn borrowed(s: &Option<String>) -> (r: Option<&str>)
    ensures
        text::text_behind(r) == text::text_in(*s),
{
    match s {
        Some(s) => Some(s.as_str()),
        None => None,
    }
}

/// Search the parameters of a device.
pub fn search_params<D: Device>(h: &DeviceHandle<D>, args: &SearchParamsArgs) -> (r: Doc)
    ensures
        r@ == search::search_result(
            D::table(),
            text::text_in(args.query),
            text::text_in(args.group),
            or_else(args.limit, DEFAULT_LIMIT) as nat,
        ),
{
    h.search_params(borrowed(&args.query), borrowed(&args.group), given_or(args.limit, DEFAULT_LIMIT))
}

/// List the entries of one catalog of a device.
pub fn get_catalog<D: Device>(h: &DeviceHandle<D>, args: &GetCatalogArgs) -> (r: Result<Doc, String>)
    ensures
        match handle::catalog_entries(handle::json_catalogs::<D>(), args.name@) {
            Some(entries) => r matches Ok(doc) && doc@ == search::catalog_page(
                args.name@,
                entries,
                text::text_in(args.filter),
                or_else(args.limit, DEFAULT_LIMIT) as nat,
                or_else(args.offset, 0) as nat,
            ),
            None => r matches Err(m) && m@ == search::unknown_catalog_text(
                args.name@,
                D::value_catalogs().catalog_names(),
            ),
        },
{
    h.get_catalog(
        args.name.as_str(),
        borrowed(&args.filter),
        given_or(args.limit, DEFAULT_LIMIT),
        given_or(args.offset, 0),
    )
}

/// Validate a document through the device's codec.
pub fn validate<D: Device>(h: &DeviceHandle<D>, args: &ValidateArgs) -> (r: Doc)
    ensures
        handle::validated::<D>(args.area@, args.document@, r@),
{
    h.validate(args.area.as_str(), args.document.as_str())
}

/// Turn the value names of a document into numbers.
pub fn resolve_names<D: Device>(h: &DeviceHandle<D>, args: &ResolveNamesArgs) -> (r: Result<String, String>)
    ensures
        text::outcome(r) == handle::resolved_text::<D>(args.document@),
{
    h.resolve_names(args.document.as_str())
}

/// Say what is to be exchanged to read an area off the device.
pub fn dump<D: Device>(h: &DeviceHandle<D>, args: &DumpArgs) -> (r: Result<DumpPlan, String>)
    ensures
        plan::dump_planned::<D>(h.config(), args.area@, r),
{
    h.dump(args.area.as_str())
}

/// Say what is to be sent to write a document to the device. It is not confirmed
/// unless asked for.
pub fn sync<D: Device>(h: &DeviceHandle<D>, args: &SyncArgs) -> (r: Result<SyncPlan, String>)
    ensures
        plan::sync_planned::<D>(
            h.config(),
            args.area@,
            args.document@,
            args.verify == Some(true),
            text::text_in(args.store),
            r,
        ),
{
    let verify = match args.verify {
        Some(v) => v,
        None => false,
    };
    h.sync(args.area.as_str(), args.document.as_str(), verify, borrowed(&args.store))
}

}
