//! The loader's configuration and the merge-and-resolve pipeline.
//!
//! A load runs the sources in a fixed priority order: candidate files first
//! (lowest priority, in listed order, later files overriding earlier ones
//! field by field), then the environment, then — when enabled — the command
//! line (highest priority), whose mandatory flags are decided by the
//! required-field analysis against the tree merged so far. Reading files,
//! the process environment and the argument vector is the application's
//! job; given their raw results, the whole resolution is verified.

use vstd::prelude::*;

use crate::analyzer::spec_missing;
use crate::cli_source::FlagSpec;
use crate::cli_source::build_flag_specs;
use crate::cli_source::cli_tree;
use crate::cli_source::flags_view;
use crate::cli_source::spec_cli_tree;
use crate::cli_source::spec_flag_specs;
use crate::env_source::env_tree;
use crate::env_source::spec_env_tree;
use crate::merge::lemma_spec_merge_wf;
use crate::merge::merge;
use crate::merge::spec_merge;
use crate::meta::ConfigMeta;
use crate::meta::SpecField;
use crate::value::SpecValue;
use crate::value::Value;
use crate::value::value_wf;

verus! {

broadcast use vstd::std_specs::vec::group_vec_axioms;

/// The options of one load: an optional environment-variable prefix, the
/// ordered candidate file list, and whether the command line participates.
#[derive(Debug)]
pub struct ConfigLoader {
    pub env_prefix: Option<String>,
    pub config_files: Vec<String>,
    pub cli_enabled: bool,
}

impl Default for ConfigLoader {
    /// The zero-configuration loader: no prefix, the three default candidate
    /// files, no command line.
    fn default() -> (r: Self)
        ensures
            r.env_prefix is None,
            r.config_files.deep_view() == seq!["config.json"@, "config.yaml"@, "config.toml"@],
            !r.cli_enabled,
    {
        let mut files: Vec<String> = Vec::new();
        files.push("config.json".to_owned());
        files.push("config.yaml".to_owned());
        files.push("config.toml".to_owned());
        proof {
            assert(files.deep_view() =~= seq!["config.json"@, "config.yaml"@, "config.toml"@]);
        }
        ConfigLoader { env_prefix: None, config_files: files, cli_enabled: false }
    }
}

impl ConfigLoader {
    /// Set the environment-variable prefix.
    pub fn with_env_prefix(self, prefix: String) -> (r: Self)
        ensures
            r.env_prefix == Some(prefix),
            r.config_files == self.config_files,
            r.cli_enabled == self.cli_enabled,
    {
        ConfigLoader {
            env_prefix: Some(prefix),
            config_files: self.config_files,
            cli_enabled: self.cli_enabled,
        }
    }

    /// Add one candidate configuration file at the end of the list.
    pub fn with_config_file(self, path: String) -> (r: Self)
        ensures
            r.env_prefix == self.env_prefix,
            r.config_files@ == self.config_files@.push(path),
            r.cli_enabled == self.cli_enabled,
    {
        let mut files = self.config_files;
        files.push(path);
        ConfigLoader {
            env_prefix: self.env_prefix,
            config_files: files,
            cli_enabled: self.cli_enabled,
        }
    }

    /// Replace the candidate file list with the given one.
    pub fn with_config_files(self, files: Vec<String>) -> (r: Self)
        ensures
            r.env_prefix == self.env_prefix,
            r.config_files == files,
            r.cli_enabled == self.cli_enabled,
    {
        ConfigLoader {
            env_prefix: self.env_prefix,
            config_files: files,
            cli_enabled: self.cli_enabled,
        }
    }

    /// Enable the command-line layer.
    pub fn with_cli(self) -> (r: Self)
        ensures
            r.env_prefix == self.env_prefix,
            r.config_files == self.config_files,
            r.cli_enabled,
    {
        ConfigLoader {
            env_prefix: self.env_prefix,
            config_files: self.config_files,
            cli_enabled: true,
        }
    }
}

/// The file layer: every present file's tree merged left to right over an
/// empty object, so that later files override earlier ones.
pub open spec fn spec_merge_files(trees: Seq<SpecValue>) -> SpecValue
    decreases trees.len(),
{
    if trees.len() == 0 {
        SpecValue::Object(Seq::empty())
    } else {
        spec_merge(spec_merge_files(trees.drop_last()), trees.last())
    }
}

/// What one load resolves to, before validation and decoding: files merged
/// in order, the environment layer on top, and — when the command line
/// participates — the command-line layer on top of everything, its flag
/// schema derived from the tree the first two layers produced.
pub open spec fn spec_resolve(
    fields: Seq<SpecField>,
    file_trees: Seq<SpecValue>,
    env_pairs: Seq<(Seq<char>, Seq<char>)>,
    cli: Option<Seq<(Seq<char>, Seq<Seq<char>>)>>,
) -> SpecValue {
    let after_files = spec_merge_files(file_trees);
    let after_env = spec_merge(after_files, spec_env_tree(env_pairs));
    match cli {
        None => after_env,
        Some(ms) => {
            let flags = spec_flag_specs(fields, spec_missing(fields, after_env));
            spec_merge(after_env, spec_cli_tree(flags, ms))
        },
    }
}

/// Resolve one load from the sources' raw results: the trees of the files
/// that were present, in candidate order; the environment variables that
/// were set, as (dotted path, raw value) pairs; and, when the command line
/// is enabled, its matches as (long name, occurrences) pairs.
#[verifier::loop_isolation(false)]
pub fn resolve(
    meta: &ConfigMeta,
    file_trees: &Vec<Value>,
    env_found: &Vec<(String, String)>,
    cli_matches: Option<&Vec<(String, Vec<String>)>>,
) -> (r: Value)
    ensures
        r@ == spec_resolve(
            meta@.fields,
            file_trees.deep_view(),
            env_found.deep_view(),
            match cli_matches {
                None => None,
                Some(m) => Some(m.deep_view()),
            },
        ),
        (forall|i: int|
            0 <= i < file_trees.deep_view().len() ==> value_wf(
                #[trigger] file_trees.deep_view()[i],
            )) ==> value_wf(r@),
{
    let ghost ftv = file_trees.deep_view();
    let mut acc = Value::Object(Vec::new());
    let mut i: usize = 0;
    let ghost files_wf = forall|j: int| 0 <= j < ftv.len() ==> value_wf(#[trigger] ftv[j]);
    proof {
        assert(acc@ == spec_merge_files(ftv.subrange(0, 0)));
        assert(value_wf(acc@));
    }
    while i < file_trees.len()
        invariant
            i <= file_trees@.len(),
            acc@ == spec_merge_files(ftv.subrange(0, i as int)),
            files_wf ==> value_wf(acc@),
        decreases file_trees@.len() - i,
    {
        proof {
            if files_wf {
                lemma_spec_merge_wf(acc@, ftv[i as int]);
            }
        }
        let merged = merge(&acc, &file_trees[i]);
        proof {
            assert(ftv[i as int] == file_trees@[i as int]@);
            assert(ftv.subrange(0, i + 1).drop_last() =~= ftv.subrange(0, i as int));
            assert(ftv.subrange(0, i + 1).last() == ftv[i as int]);
        }
        acc = merged;
        i = i + 1;
    }
    proof {
        assert(ftv.subrange(0, ftv.len() as int) =~= ftv);
    }
    let environment = env_tree(env_found);
    proof {
        if files_wf {
            lemma_spec_merge_wf(acc@, environment@);
        }
    }
    let after_env = merge(&acc, &environment);
    match cli_matches {
        None => after_env,
        Some(ms) => {
            let flags: Vec<FlagSpec> = build_flag_specs(meta, &after_env);
            let cli_layer = cli_tree(&flags, ms);
            proof {
                if files_wf {
                    lemma_spec_merge_wf(after_env@, cli_layer@);
                }
            }
            merge(&after_env, &cli_layer)
        },
    }
}

} // verus!
