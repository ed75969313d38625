use vstd::prelude::*;
use vstd::string::StrSliceExecFns;
use crate::accumulator::MetricConfig;
use crate::filter::FilterPolicy;

verus! {

/// How the report is rendered.
#[derive(Clone, Copy, Debug, PartialEq, Eq)]
pub enum OutputFormat {
    Text,
    Json,
    Tsv,
}

/// The lowercase form of `s`, as std's `str::to_lowercase` gives it.
pub uninterp spec fn lower_of(s: Seq<char>) -> Seq<char>;

/// Relies on std's `str::to_lowercase`: its result depends on the characters
/// of `s` alone.
#[verifier::external_body]
fn lowercase(s: &str) -> (r: String)
    ensures
        r@ == lower_of(s@),
{
    s.to_lowercase()
}

/// Whether `s` begins with `p`.
pub open spec fn starts_with(s: Seq<char>, p: Seq<char>) -> bool {
    p.len() <= s.len() && s.subrange(0, p.len() as int) == p
}

/// Whether `s` begins with `p`.
pub fn has_prefix(s: &str, p: &str) -> (r: bool)
    ensures
        r == starts_with(s@, p@),
{
    let n = p.unicode_len();
    if n > s.unicode_len() {
        return false;
    }
    let mut i: usize = 0;
    while i < n
        invariant
            n == p@.len(),
            n <= s@.len(),
            i <= n,
            forall|j: int| 0 <= j < i ==> s@[j] == p@[j],
        decreases n - i,
    {
        if s.get_char(i) != p.get_char(i) {
            assert(s@.subrange(0, n as int)[i as int] != p@[i as int]);
            return false;
        }
        i = i + 1;
    }
    assert(s@.subrange(0, n as int) =~= p@);
    true
}

/// Whether `s` and `t` hold the same characters.
pub fn same_text(s: &str, t: &str) -> (r: bool)
    ensures
        r == (s@ == t@),
{
    if s.unicode_len() != t.unicode_len() {
        return false;
    }
    let b = has_prefix(s, t);
    proof {
        if b {
            assert(s@ =~= s@.subrange(0, t@.len() as int));
        }
        if s@ == t@ {
            assert(s@.subrange(0, t@.len() as int) =~= t@);
        }
    }
    b
}

/// The format named by an already lowercased name.
pub open spec fn format_named(s: Seq<char>) -> Option<OutputFormat> {
    if s == "text"@ {
        Some(OutputFormat::Text)
    } else if s == "json"@ {
        Some(OutputFormat::Json)
    } else if s == "tsv"@ {
        Some(OutputFormat::Tsv)
    } else {
        None
    }
}

/// The name of a format.
pub open spec fn format_name(f: OutputFormat) -> Seq<char> {
    match f {
        OutputFormat::Text => "text"@,
        OutputFormat::Json => "json"@,
        OutputFormat::Tsv => "tsv"@,
    }
}

impl OutputFormat {
    /// The format with the given lowercase name.
    pub fn from_lowercase(s: &str) -> (r: Option<OutputFormat>)
        ensures
            r == format_named(s@),
    {
        if same_text(s, "text") {
            Some(OutputFormat::Text)
        } else if same_text(s, "json") {
            Some(OutputFormat::Json)
        } else if same_text(s, "tsv") {
            Some(OutputFormat::Tsv)
        } else {
            None
        }
    }

    /// The format named by `s`, in any letter case.
    pub fn parse(s: &str) -> (r: Option<OutputFormat>)
        ensures
            r == format_named(lower_of(s@)),
    {
        let lower = lowercase(s);
        OutputFormat::from_lowercase(lower.as_str())
    }

    /// The name of the format.
    pub fn name(&self) -> (r: &'static str)
        ensures
            r@ == format_name(*self),
    {
        match self {
            OutputFormat::Text => "text",
            OutputFormat::Json => "json",
            OutputFormat::Tsv => "tsv",
        }
    }
}

/// Whether a path names standard input or a remote source rather than a file.
pub open spec fn stream_name(s: Seq<char>) -> bool {
    s == "-"@ || starts_with(s, "http"@) || starts_with(s, "ftp"@) || starts_with(s, "s3"@)
}

/// Whether `pathname` names standard input or a remote source.
pub fn is_stream_or_remote(pathname: &str) -> (r: bool)
    ensures
        r == stream_name(pathname@),
{
    same_text(pathname, "-") || has_prefix(pathname, "http") || has_prefix(pathname, "ftp")
        || has_prefix(pathname, "s3")
}

/// Whether the input can be read: standard input and remote sources always
/// can, a path on disk only when it is a regular file.
pub fn is_file(pathname: &str, is_regular_file: bool) -> (r: bool)
    ensures
        r == (stream_name(pathname@) || is_regular_file),
{
    is_stream_or_remote(pathname) || is_regular_file
}

/// The options of one run.
#[derive(Clone, Debug)]
pub struct Cli {
    pub input: String,
    pub threads: usize,
    pub reference: Option<String>,
    pub min_read_len: usize,
    pub hist: Option<Option<String>>,
    pub hist_count: Option<Option<String>>,
    pub scaled: bool,
    pub arrow: Option<String>,
    pub karyotype: bool,
    pub phased: bool,
    pub spliced: bool,
    pub ubam: bool,
    pub format: OutputFormat,
}

impl Cli {
    /// The options with the per-chromosome, phasing and splicing metrics
    /// turned off for unaligned input.
    pub fn normalized(self) -> (r: Cli)
        ensures
            r == (Cli {
                karyotype: self.karyotype && !self.ubam,
                phased: self.phased && !self.ubam,
                spliced: self.spliced && !self.ubam,
                ..self
            }),
    {
        let mut r = self;
        if r.ubam {
            r.karyotype = false;
            r.phased = false;
            r.spliced = false;
        }
        r
    }

    /// The record filter of these options.
    pub fn filter_policy(&self) -> (r: FilterPolicy)
        ensures
            r.include_unaligned == self.ubam,
            r.min_length == self.min_read_len,
    {
        FilterPolicy { include_unaligned: self.ubam, min_length: self.min_read_len }
    }

    /// The metric families these options ask for.
    pub fn metric_config(&self) -> (r: MetricConfig)
        ensures
            r.identities == !self.ubam,
            r.reference_ids == self.karyotype,
            r.phasing == self.phased,
            r.splicing == self.spliced,
    {
        MetricConfig {
            identities: !self.ubam,
            reference_ids: self.karyotype,
            phasing: self.phased,
            splicing: self.spliced,
        }
    }

    /// Whether any histogram output is asked for.
    pub fn histograms_requested(&self) -> (r: bool)
        ensures
            r == (self.hist is Some || self.hist_count is Some),
    {
        self.hist.is_some() || self.hist_count.is_some()
    }
}

/// Name, path and creation time of the input.
#[derive(Clone, Debug)]
pub struct FileInfo {
    pub name: String,
    pub path: String,
    pub creation_time: String,
}

/// The final component of a path, as std's `Path::file_name` gives it.
pub uninterp spec fn final_component(p: Seq<char>) -> Option<Seq<char>>;

/// Relies on std's `Path::file_name`: the final component of the path, if it
/// has one (a path built from a `str` converts back without loss).
#[verifier::external_body]
fn path_file_name(path: &str) -> (r: Option<String>)
    ensures
        r matches Some(n) ==> final_component(path@) == Some(n@),
        r is None ==> final_component(path@) is None,
{
    std::path::Path::new(path).file_name().and_then(|n| n.to_str()).map(|n| n.to_string())
}

/// The input of a run.
#[derive(Clone, Debug)]
pub struct BamFile {
    pub path: String,
}

impl BamFile {
    /// The file name of the input path, if it has one.
    pub fn file_name(&self) -> (r: Option<String>)
        ensures
            r matches Some(n) ==> final_component(self.path@) == Some(n@),
            r is None ==> final_component(self.path@) is None,
    {
        path_file_name(self.path.as_str())
    }
}

} // verus!
