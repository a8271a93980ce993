//! Global configuration: limits and ignore patterns.

use vstd::prelude::*;

verus! {

/// The patterns ignored by default when scanning a repository.
pub open spec fn spec_default_ignore_patterns() -> Seq<Seq<char>> {
    seq!["node_modules"@, ".git"@, "dist"@, "build"@, "target"@, ".next"@, "__pycache__"@, ".venv"@, "venv"@, ".tox"@, "vendor"@, ".idea"@, ".vscode"@, "coverage"@, ".nyc_output"@, ".cache"@, "*.min.js"@, "*.min.css"@, "*.map"@, "*.lock"@, "package-lock.json"@, "yarn.lock"@, "pnpm-lock.yaml"@]
}

/// The patterns ignored by default when scanning a repository.
pub fn default_ignore_patterns() -> (r: Vec<String>)
    ensures
        r@.map_values(|s: String| s@) == spec_default_ignore_patterns(),
{
    let mut r: Vec<String> = Vec::new();
    r.push("node_modules".to_owned());
    r.push(".git".to_owned());
    r.push("dist".to_owned());
    r.push("build".to_owned());
    r.push("target".to_owned());
    r.push(".next".to_owned());
    r.push("__pycache__".to_owned());
    r.push(".venv".to_owned());
    r.push("venv".to_owned());
    r.push(".tox".to_owned());
    r.push("vendor".to_owned());
    r.push(".idea".to_owned());
    r.push(".vscode".to_owned());
    r.push("coverage".to_owned());
    r.push(".nyc_output".to_owned());
    r.push(".cache".to_owned());
    r.push("*.min.js".to_owned());
    r.push("*.min.css".to_owned());
    r.push("*.map".to_owned());
    r.push("*.lock".to_owned());
    r.push("package-lock.json".to_owned());
    r.push("yarn.lock".to_owned());
    r.push("pnpm-lock.yaml".to_owned());
    assert(r@.map_values(|s: String| s@) =~= spec_default_ignore_patterns());
    r
}

/// Global configuration for GitGrapher. All limits are tunable.
#[derive(Debug, Clone)]
pub struct Config {
    /// Maximum file size to parse in bytes (default: 32MB).
    pub max_file_size: usize,
    /// AST cache capacity in number of parsed trees (default: 500).
    pub ast_cache_capacity: usize,
    /// Source code byte budget per processing chunk (default: 100MB).
    pub chunk_byte_budget: usize,
    /// Max files to re-process during cross-file type propagation (default: 10000).
    pub max_cross_file_reprocess: usize,
    /// Maximum fixpoint iterations for type resolution (default: 50).
    pub fixpoint_max_iterations: u32,
    /// Stop fixpoint early when the share of newly resolved assignments falls
    /// below this many parts per million (default: 1000, i.e. 0.001).
    pub fixpoint_convergence_threshold_ppm: u64,
    /// Community detection resolution, in parts per million (default: 1000000, i.e. 1.0).
    pub community_resolution_ppm: u64,
    /// Maximum number of processes to detect (default: 200).
    pub max_processes: usize,
    /// Maximum BFS depth for process tracing (default: 15).
    pub max_trace_depth: usize,
    /// Number of worker threads for parallel parsing (default: number of CPUs - 1, at least 1).
    pub worker_threads: usize,
    /// Patterns of files/directories to ignore during scanning.
    pub ignore_patterns: Vec<String>,
}

impl Config {
    /// The default configuration on a machine with `cpus` CPUs.
    pub fn for_cpus(cpus: usize) -> (r: Config)
        ensures
            r.max_file_size == 32 * 1024 * 1024,
            r.ast_cache_capacity == 500,
            r.chunk_byte_budget == 100 * 1024 * 1024,
            r.max_cross_file_reprocess == 10_000,
            r.fixpoint_max_iterations == 50,
            r.fixpoint_convergence_threshold_ppm == 1000,
            r.community_resolution_ppm == 1_000_000,
            r.max_processes == 200,
            r.max_trace_depth == 15,
            r.worker_threads == (if cpus > 1 { cpus - 1 } else { 1 }),
            r.ignore_patterns@.map_values(|s: String| s@) == spec_default_ignore_patterns(),
    {
        Config {
            max_file_size: 32 * 1024 * 1024,
            ast_cache_capacity: 500,
            chunk_byte_budget: 100 * 1024 * 1024,
            max_cross_file_reprocess: 10_000,
            fixpoint_max_iterations: 50,
            fixpoint_convergence_threshold_ppm: 1000,
            community_resolution_ppm: 1_000_000,
            max_processes: 200,
            max_trace_depth: 15,
            worker_threads: if cpus > 1 { cpus - 1 } else { 1 },
            ignore_patterns: default_ignore_patterns(),
        }
    }
}

} // verus!
