//! Run configuration: the datasets, the stage toggles, the graph parameters
//! and the fixed names of the output files.

use vstd::prelude::*;
use crate::structs::IpType;

verus! {

/// The file name of the serialised address index inside the intermediate directory.
pub const NODE_INDEX_PATH: &'static str = "yarrp.node_index.bin";

/// What joining the path `name` onto the directory `dir` gives.
pub uninterp spec fn joined(dir: Seq<char>, name: Seq<char>) -> Seq<char>;

/// Relies on `std::path::Path::join`: the path of `name` inside `dir`,
/// which depends on the two paths alone.
#[verifier::external_body]
pub(crate) fn join_path(dir: &String, name: &str) -> (r: String)
    ensures
        r@ == joined(dir@, name@),
{
    std::path::Path::new(dir).join(name).to_string_lossy().into_owned()
}

/// The output files of one dataset.
#[derive(Clone, Debug)]
pub struct OutputPaths {
    mapping: String,
    edges: String,
    edges_deduplicated: String,
    max_node_ids: String,
    betweenness: String,
    degree: String,
}

impl OutputPaths {
    pub closed spec fn spec_mapping(&self) -> Seq<char> {
        self.mapping@
    }

    pub closed spec fn spec_edges(&self) -> Seq<char> {
        self.edges@
    }

    pub closed spec fn spec_edges_deduplicated(&self) -> Seq<char> {
        self.edges_deduplicated@
    }

    pub closed spec fn spec_max_node_ids(&self) -> Seq<char> {
        self.max_node_ids@
    }

    pub closed spec fn spec_betweenness(&self) -> Seq<char> {
        self.betweenness@
    }

    pub closed spec fn spec_degree(&self) -> Seq<char> {
        self.degree@
    }

    pub fn mapping(&self) -> (r: &String)
        ensures
            r@ == self.spec_mapping(),
    {
        &self.mapping
    }

    pub fn edges(&self) -> (r: &String)
        ensures
            r@ == self.spec_edges(),
    {
        &self.edges
    }

    pub fn edges_deduplicated(&self) -> (r: &String)
        ensures
            r@ == self.spec_edges_deduplicated(),
    {
        &self.edges_deduplicated
    }

    pub fn max_node_ids(&self) -> (r: &String)
        ensures
            r@ == self.spec_max_node_ids(),
    {
        &self.max_node_ids
    }

    pub fn betweenness(&self) -> (r: &String)
        ensures
            r@ == self.spec_betweenness(),
    {
        &self.betweenness
    }

    pub fn degree(&self) -> (r: &String)
        ensures
            r@ == self.spec_degree(),
    {
        &self.degree
    }
}

/// The settings of one input format.
#[derive(Clone, Debug)]
pub struct DatasetConfig {
    pub enabled: bool,
    pub read_compressed: bool,
    pub address_type: IpType,
    pub input_path: String,
    pub intermediate_path: String,
    pub output_path: String,
}

/// The two input formats: the line-based scan format and the binary
/// traceroute-record format.
#[derive(Clone, Debug)]
pub struct Dataset {
    pub yarrp: DatasetConfig,
    pub warts: DatasetConfig,
}

#[derive(Clone, Copy, Debug)]
pub struct DegreeParameters {
    pub enabled: bool,
}

#[derive(Clone, Copy, Debug)]
pub struct BetweennessParameters {
    pub enabled: bool,
    pub save_intermediate_results_periodically: bool,
    pub result_batch_size: u32,
    pub max_thread_count: u16,
}

#[derive(Clone, Copy, Debug)]
pub struct GraphParametersToCompute {
    pub degree: DegreeParameters,
    pub betweenness: BetweennessParameters,
}

/// Which stages run.
#[derive(Clone, Copy, Debug)]
pub struct FeatureToggle {
    pub should_preprocess: bool,
    pub should_merge: bool,
    pub should_persist_index: bool,
    pub should_persist_edges: bool,
    pub should_deduplicate_edges: bool,
    pub should_compute_graph: bool,
    pub parameters: GraphParametersToCompute,
}

#[derive(Clone, Debug)]
pub struct Config {
    pub dataset: Dataset,
    pub features: FeatureToggle,
}

/// The output files of `config`: fixed names inside its output directory.
pub fn compute_output_paths(config: &DatasetConfig) -> (r: OutputPaths)
    ensures
        r.spec_mapping() == joined(config.output_path@, "mapping.csv"@),
        r.spec_edges() == joined(config.output_path@, "edges.csv"@),
        r.spec_edges_deduplicated() == joined(config.output_path@, "edges_deduplicated.csv"@),
        r.spec_max_node_ids() == joined(config.output_path@, "max_node_ids.csv"@),
        r.spec_betweenness() == joined(config.output_path@, "betweenness.csv"@),
        r.spec_degree() == joined(config.output_path@, "degree.csv"@),
{
    OutputPaths {
        mapping: join_path(&config.output_path, "mapping.csv"),
        edges: join_path(&config.output_path, "edges.csv"),
        edges_deduplicated: join_path(&config.output_path, "edges_deduplicated.csv"),
        max_node_ids: join_path(&config.output_path, "max_node_ids.csv"),
        betweenness: join_path(&config.output_path, "betweenness.csv"),
        degree: join_path(&config.output_path, "degree.csv"),
    }
}

/// The settings of one preprocessing run of the line-based format.
#[derive(Clone, Debug)]
pub struct GraphBuilderParameters {
    pub address_type: IpType,
    pub input_path: String,
    pub intermediary_file_path_original: String,
    pub intermediary_file_path: String,
    pub output_path: String,
    pub should_preprocess: bool,
    pub should_merge: bool,
    pub should_persist_index: bool,
    pub should_persist_edges: bool,
}

impl GraphBuilderParameters {
    pub closed spec fn spec_intermediary_original(&self) -> Seq<char> {
        self.intermediary_file_path_original@
    }

    pub closed spec fn spec_intermediary(&self) -> Seq<char> {
        self.intermediary_file_path@
    }

    pub fn new(
        address_type: IpType,
        input_folder: String,
        intermediate_folder: String,
        output_folder: String,
        should_preprocess: bool,
        should_merge: bool,
        should_persist_index: bool,
        should_persist_edges: bool,
    ) -> (r: GraphBuilderParameters)
        ensures
            r.address_type == address_type,
            r.input_path@ == input_folder@,
            r.spec_intermediary_original() == intermediate_folder@,
            r.spec_intermediary() == intermediate_folder@,
            r.output_path@ == output_folder@,
            r.should_preprocess == should_preprocess,
            r.should_merge == should_merge,
            r.should_persist_index == should_persist_index,
            r.should_persist_edges == should_persist_edges,
    {
        let copy = intermediate_folder.clone();
        GraphBuilderParameters {
            address_type,
            input_path: input_folder,
            intermediary_file_path_original: intermediate_folder,
            intermediary_file_path: copy,
            output_path: output_folder,
            should_preprocess,
            should_merge,
            should_persist_index,
            should_persist_edges,
        }
    }

    /// Points the intermediate directory at `suffix` inside the original one.
    pub fn add_intermediate_suffix(&mut self, suffix: &str)
        ensures
            final(self).spec_intermediary() == joined(old(self).spec_intermediary_original(), suffix@),
            final(self).spec_intermediary_original() == old(self).spec_intermediary_original(),
    {
        self.intermediary_file_path = join_path(&self.intermediary_file_path_original, suffix);
    }

    pub fn address_type(&self) -> (r: &IpType)
        ensures
            *r == self.address_type,
    {
        &self.address_type
    }

    pub fn input_path(&self) -> (r: &String)
        ensures
            r@ == self.input_path@,
    {
        &self.input_path
    }

    pub fn intermediary_file_path_original(&self) -> (r: &String)
        ensures
            r@ == self.spec_intermediary_original(),
    {
        &self.intermediary_file_path_original
    }

    pub fn intermediary_file_path(&self) -> (r: &String)
        ensures
            r@ == self.spec_intermediary(),
    {
        &self.intermediary_file_path
    }

    pub fn output_path(&self) -> (r: &String)
        ensures
            r@ == self.output_path@,
    {
        &self.output_path
    }

    pub fn should_preprocess(&self) -> (r: bool)
        ensures
            r == self.should_preprocess,
    {
        self.should_preprocess
    }

    pub fn should_merge(&self) -> (r: bool)
        ensures
            r == self.should_merge,
    {
        self.should_merge
    }

    pub fn should_persist_index(&self) -> (r: bool)
        ensures
            r == self.should_persist_index,
    {
        self.should_persist_index
    }

    pub fn should_persist_edges(&self) -> (r: bool)
        ensures
            r == self.should_persist_edges,
    {
        self.should_persist_edges
    }
}

} // verus!
