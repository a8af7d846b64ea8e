//! Which chart is asked for, where its results lie, and where it goes.
//!
//! Every implementation has a directory of its own under one root, with one
//! result file for each kind of benchmark and topology.
use vstd::prelude::*;

use super::arguments::{arg_value, has_arg, place_of};

verus! {

/// A chart.
#[derive(Debug, PartialEq, Eq)]
pub enum Chart {
    /// Wake latency of the named topology.
    Latency(String),
    /// Throughput of both topologies side by side.
    Summary,
    /// Throughput of one topology in detail, with several consumers or with one.
    Detail(bool),
}

/// What a chart is about.
#[derive(Debug, Clone, Copy, PartialEq, Eq, Structural)]
pub enum Measure {
    /// Items per second.
    Throughput,
    /// Time until a blocked thread goes on.
    Latency,
}

/// Whether an argument is there.
pub open spec fn given(args: Seq<String>, name: Seq<char>) -> bool {
    place_of(args, name) < args.len()
}

/// Whether an argument is there with one behind it.
pub open spec fn has_value(args: Seq<String>, name: Seq<char>) -> bool {
    place_of(args, name) + 1 < args.len()
}

/// The chart that the arguments ask for. A latency chart comes first, then the
/// summary, then the details.
pub fn requested_chart(args: &[String]) -> (chart: Chart)
    ensures
        match chart {
            Chart::Latency(topology) => has_value(args@, "--latency"@) && topology@
                == args@[place_of(args@, "--latency"@) + 1]@,
            Chart::Summary => !has_value(args@, "--latency"@) && given(args@, "--summary"@),
            Chart::Detail(several) => !has_value(args@, "--latency"@) && !given(
                args@,
                "--summary"@,
            ) && several == given(args@, "--mpmc"@),
        },
{
    if let Some(topology) = arg_value(args, "--latency") {
        return Chart::Latency(topology);
    }
    if has_arg(args, "--summary") {
        return Chart::Summary;
    }
    Chart::Detail(has_arg(args, "--mpmc"))
}

/// The name of a topology.
pub open spec fn topology_name(several: bool) -> Seq<char> {
    if several {
        "mpmc"@
    } else {
        "mpsc"@
    }
}

/// The name of a topology.
pub fn topology(several: bool) -> (name: String)
    ensures
        name@ == topology_name(several),
{
    if several {
        "mpmc".to_owned()
    } else {
        "mpsc".to_owned()
    }
}

/// The first part of the name of a file.
pub open spec fn measure_name(measure: Measure) -> Seq<char> {
    match measure {
        Measure::Throughput => "throughput-"@,
        Measure::Latency => "latency-"@,
    }
}

/// A name made of what is measured, the topology and an ending.
fn named(measure: Measure, topology: &str, ending: &str) -> (name: String)
    ensures
        name@ == measure_name(measure) + topology@ + ending@,
{
    let mut name: String = match measure {
        Measure::Throughput => "throughput-".to_owned(),
        Measure::Latency => "latency-".to_owned(),
    };
    name.append(topology);
    name.append(ending);
    name
}

/// The name of the result file in the directory of each implementation.
pub fn result_file(measure: Measure, topology: &str) -> (name: String)
    ensures
        name@ == measure_name(measure) + topology@ + ".jsonl"@,
{
    named(measure, topology, ".jsonl")
}

/// Where the results of all implementations lie: the directory that an argument
/// names, else the one that the environment names, else one in the cache of the
/// user. There is none where the user has no home.
pub open spec fn root_of(
    argument: Option<Seq<char>>,
    configured: Option<Seq<char>>,
    home: Option<Seq<char>>,
) -> Option<Seq<char>> {
    match (argument, configured, home) {
        (Some(root), _, _) => Some(root),
        (None, Some(root), _) => Some(root),
        (None, None, Some(home)) => Some(home + "/.cache/fanring"@),
        (None, None, None) => None,
    }
}

/// What an optional text holds.
pub open spec fn text_in(text: Option<String>) -> Option<Seq<char>> {
    match text {
        Some(text) => Some(text@),
        None => None,
    }
}

/// Where the results of all implementations lie.
pub fn results_root(
    argument: Option<String>,
    configured: Option<String>,
    home: Option<String>,
) -> (root: Option<String>)
    ensures
        text_in(root) == root_of(text_in(argument), text_in(configured), text_in(home)),
{
    if let Some(root) = argument {
        return Some(root);
    }
    if let Some(root) = configured {
        return Some(root);
    }
    match home {
        Some(home) => {
            let mut root = home;
            root.append("/.cache/fanring");
            Some(root)
        },
        None => None,
    }
}

/// Where a chart goes unless an argument says otherwise.
pub open spec fn output_of(chart: Chart) -> Seq<char> {
    "doc/charts/"@ + match chart {
        Chart::Latency(topology) => "latency-"@ + topology@ + ".svg"@,
        Chart::Summary => "throughput-summary.svg"@,
        Chart::Detail(several) => "throughput-"@ + topology_name(several) + ".svg"@,
    }
}

/// Where a chart goes unless an argument says otherwise.
pub fn default_output(chart: &Chart) -> (path: String)
    ensures
        path@ == output_of(*chart),
{
    let mut path: String = "doc/charts/".to_owned();
    match chart {
        Chart::Latency(topology) => {
            let name = named(Measure::Latency, topology.as_str(), ".svg");
            path.append(name.as_str());
        },
        Chart::Summary => path.append("throughput-summary.svg"),
        Chart::Detail(several) => {
            let topology = topology(*several);
            let name = named(Measure::Throughput, topology.as_str(), ".svg");
            path.append(name.as_str());
        },
    }
    path
}

} // verus!
