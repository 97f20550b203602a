//! Job configuration and the orchestrator's plumbing.
//!
//! A job names a date, a data type and its sources; the host program
//! parses the configuration file into these structs and drives the
//! sources in their declared order — locals, then the tunneled hosts,
//! then the HTTP servers — which is what makes first-writer-wins
//! deduplication deterministic.  The path building and batch planning the
//! job needs are verified here.

use vstd::prelude::*;
use crate::date::CivilDate;

verus! {

/// One tunneled source host.
pub struct SshConfig {
    pub host: String,
    pub port: Option<u16>,
    pub username: String,
    pub password: Option<String>,
    pub private_key_path: Option<String>,
    pub input_base_path: String,
}

/// One HTTP source endpoint.
pub struct HttpConfig {
    pub base_url: String,
    pub input_base_path: String,
    pub proxy: Option<String>,
}

/// One local source directory.
pub struct LocalFileConfig {
    pub base_path: String,
}

/// Object-store settings for sync jobs.
pub struct S3Config {
    pub provider: String,
    pub bucket: String,
    pub access_key_id: String,
    pub secret_access_key: String,
    pub region: Option<String>,
    pub endpoint: Option<String>,
    pub force_path_style: Option<bool>,
    pub base_path: Option<String>,
    pub local_path: Option<String>,
    pub remote_prefix: Option<String>,
    pub cache_db_path: Option<String>,
    pub sync_direction: Option<String>,
}

/// The sources of one data type, in the order they outrank each other.
pub struct DataSourceConfig {
    pub data_type: String,
    pub ssh_servers: Vec<SshConfig>,
    pub http_servers: Vec<HttpConfig>,
    pub local_files: Vec<LocalFileConfig>,
}

/// Where and how the day's files are written.
pub struct OutputConfig {
    pub path: String,
    pub name: String,
    pub batch_size: Option<usize>,
    pub use_temp_dir: bool,
}

/// A whole job configuration.
pub struct Config {
    pub data_sources: Vec<DataSourceConfig>,
    pub output: OutputConfig,
}

impl Config {
    /// The first source block configured for a data type.
    pub fn find_data_source(&self, data_type: &str) -> (r: Option<&DataSourceConfig>)
        ensures
            r is Some <==> exists|i: int|
                0 <= i < self.data_sources@.len()
                    && (#[trigger] self.data_sources@[i]).data_type@ == data_type@,
            r matches Some(ds) ==> exists|i: int|
                0 <= i < self.data_sources@.len() && ds == &self.data_sources@[i]
                    && (#[trigger] self.data_sources@[i]).data_type@ == data_type@,
    {
        let n = self.data_sources.len();
        for i in 0..n
            invariant
                n == self.data_sources@.len(),
                forall|j: int|
                    0 <= j < i ==> (#[trigger] self.data_sources@[j]).data_type@ != data_type@,
        {
            if crate::strkit::str_eq(self.data_sources[i].data_type.as_str(), data_type) {
                return Some(&self.data_sources[i]);
            }
        }
        None
    }
}

/// The day directory under a base path: `base/YYYY/MM/DD` with the base's
/// trailing slashes dropped.
pub open spec fn spec_day_dir(base: Seq<char>, date: CivilDate) -> Seq<char> {
    crate::sync::spec_trim_slashes(base) + seq!['/'] + crate::numtext::spec_padded(
        date.year as nat,
        4,
    ) + seq!['/'] + crate::numtext::spec_padded(date.month as nat, 2) + seq!['/']
        + crate::numtext::spec_padded(date.day as nat, 2)
}

/// Build the day directory for a source or output base.
pub fn day_dir(base: &str, date: &CivilDate) -> (r: String)
    ensures
        r@ == spec_day_dir(base@, *date),
{
    proof {
        reveal_strlit("/");
        assert("/"@ =~= seq!['/']);
    }
    let trimmed = crate::sync::trim_slashes(base);
    let (y, m, d) = date.part_strings();
    let a = crate::strkit::concat_str(trimmed.as_str(), "/");
    let b = crate::strkit::concat_str(a.as_str(), y.as_str());
    let c = crate::strkit::concat_str(b.as_str(), "/");
    let e = crate::strkit::concat_str(c.as_str(), m.as_str());
    let f = crate::strkit::concat_str(e.as_str(), "/");
    let g = crate::strkit::concat_str(f.as_str(), d.as_str());
    proof {
        assert(g@ =~= spec_day_dir(base@, *date));
    }
    g
}

/// The per-symbol writer name: the configured name, a dash, the symbol.
pub fn symbol_writer_name(name: &str, symbol: &str) -> (r: String)
    ensures
        r@ == name@ + seq!['-'] + symbol@,
{
    proof {
        reveal_strlit("-");
        assert("-"@ =~= seq!['-']);
    }
    let a = crate::strkit::concat_str(name, "-");
    let r = crate::strkit::concat_str(a.as_str(), symbol);
    proof {
        assert(r@ =~= name@ + seq!['-'] + symbol@);
    }
    r
}

/// Split `total` rows into batches of at most `batch` rows: consecutive
/// half-open ranges covering everything, all full except possibly the
/// last, `ceil(total / batch)` of them.
pub fn plan_batches(total: usize, batch: usize) -> (r: Vec<(usize, usize)>)
    requires
        batch > 0,
    ensures
        r@.len() == (total + batch - 1) / (batch as int),
        forall|i: int|
            0 <= i < r@.len() ==> (#[trigger] r@[i]).0 == i * batch && r@[i].1 == (if (i + 1) * (
            batch as int) < total {
                (i + 1) * (batch as int)
            } else {
                total as int
            }),
{
    let mut r: Vec<(usize, usize)> = Vec::new();
    let mut start: usize = 0;
    proof {
        assert(r@.len() == 0);
        assert(r@.len() * batch == 0) by (nonlinear_arith)
            requires
                r@.len() == 0,
        ;
    }
    while start < total
        invariant
            batch > 0,
            start <= total,
            start == r@.len() * batch,
            forall|i: int|
                0 <= i < r@.len() ==> (#[trigger] r@[i]).0 == i * batch && r@[i].1 == (if (i + 1)
                    * (batch as int) < total {
                    (i + 1) * (batch as int)
                } else {
                    total as int
                }),
        decreases total - start,
    {
        let end = if total - start > batch {
            start + batch
        } else {
            total
        };
        let ghost k = r@.len() as int;
        r.push((start, end));
        proof {
            assert((k + 1) * (batch as int) == k * (batch as int) + batch) by (nonlinear_arith);
            assert(r@[k].0 == k * batch && r@[k].1 == (if (k + 1) * (batch as int) < total {
                (k + 1) * (batch as int)
            } else {
                total as int
            }));
        }
        if end == total {
            proof {
                let m = r@.len() as int;
                let b = batch as int;
                let t = total as int;
                assert(m * b == (m - 1) * b + b) by (nonlinear_arith);
                assert((m - 1) * b < t <= m * b);
                assert(m * b <= t + b - 1 < (m + 1) * b) by (nonlinear_arith)
                    requires
                        b > 0,
                        (m - 1) * b < t <= m * b,
                ;
                vstd::arithmetic::div_mod::lemma_fundamental_div_mod(t + b - 1, b);
                vstd::arithmetic::div_mod::lemma_div_pos_is_pos(t + b - 1, b);
                assert((t + b - 1) / b == m) by (nonlinear_arith)
                    requires
                        b > 0,
                        m * b <= t + b - 1 < (m + 1) * b,
                        t + b - 1 == b * ((t + b - 1) / b) + (t + b - 1) % b,
                        0 <= (t + b - 1) % b < b,
                ;
            }
            return r;
        }
        start = end;
    }
    proof {
        let b = batch as int;
        let t = total as int;
        let m = r@.len() as int;
        assert(t == m * b);
        if t == 0 {
            assert(m == 0 || b == 0 || m * b > 0) by (nonlinear_arith)
                requires
                    m >= 0,
                    b > 0,
            ;
            assert(m == 0);
            vstd::arithmetic::div_mod::lemma_basic_div(b - 1, b);
        } else {
            assert(m * b <= t + b - 1 < (m + 1) * b) by (nonlinear_arith)
                requires
                    b > 0,
                    t == m * b,
            ;
            vstd::arithmetic::div_mod::lemma_fundamental_div_mod(t + b - 1, b);
            assert((t + b - 1) / b == m) by (nonlinear_arith)
                requires
                    b > 0,
                    m * b <= t + b - 1 < (m + 1) * b,
                    t + b - 1 == b * ((t + b - 1) / b) + (t + b - 1) % b,
                    0 <= (t + b - 1) % b < b,
            ;
        }
    }
    r
}

} // verus!
