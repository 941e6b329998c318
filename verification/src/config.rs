//! The run configuration: the four locations a run works with, with the
//! documented default for each place the caller leaves unset.
use vstd::prelude::*;

verus! {

/// Where a run reads its filter lists and source archive, and where it
/// writes its output and its temporary workspace.
#[derive(Debug)]
pub struct RunConfig {
    pub filter_dir: String,
    pub source: String,
    pub target: String,
    pub tmp_dir: String,
}

/// Resolve the command-line arguments: each place given by the caller is
/// taken as it is; each place left unset falls back to its default —
/// "filter/" for the filter-list directory, "submissions.zip" for the
/// source archive, "out/" for the output directory, "tmp/" for the
/// temporary workspace.
pub fn parse_args(
    filter_dir: Option<String>,
    source: Option<String>,
    target: Option<String>,
    tmp_dir: Option<String>,
) -> (c: RunConfig)
    ensures
        c.filter_dir@ == (match filter_dir {
            Some(f) => f@,
            None => "filter/"@,
        }),
        c.source@ == (match source {
            Some(s) => s@,
            None => "submissions.zip"@,
        }),
        c.target@ == (match target {
            Some(t) => t@,
            None => "out/"@,
        }),
        c.tmp_dir@ == (match tmp_dir {
            Some(t) => t@,
            None => "tmp/"@,
        }),
{
    let filter_dir = match filter_dir {
        Some(f) => f,
        None => "filter/".to_owned(),
    };
    let source = match source {
        Some(s) => s,
        None => "submissions.zip".to_owned(),
    };
    let target = match target {
        Some(t) => t,
        None => "out/".to_owned(),
    };
    let tmp_dir = match tmp_dir {
        Some(t) => t,
        None => "tmp/".to_owned(),
    };
    RunConfig { filter_dir, source, target, tmp_dir }
}

} // verus!
