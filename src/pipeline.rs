//! The stages of a run, each holding the settings it works with. The stages'
//! file handling lies outside this library; the logic they apply is in the
//! other modules.

use vstd::prelude::*;
use crate::parameters::{DatasetConfig, GraphBuilderParameters, GraphParametersToCompute, OutputPaths};

verus! {

/// Reads the line-based scan files of a dataset into shards and the index.
pub struct YarrpDataPreprocessor {
    pub config: DatasetConfig,
}

impl YarrpDataPreprocessor {
    pub fn new(config: DatasetConfig) -> (r: YarrpDataPreprocessor)
        ensures
            r.config == config,
    {
        YarrpDataPreprocessor { config }
    }
}

/// Reads the binary traceroute-record files of a dataset straight into the
/// edge list and the index.
pub struct WartsDataPreprocessor {
    pub config: DatasetConfig,
    pub output_paths: OutputPaths,
}

impl WartsDataPreprocessor {
    pub fn new(config: DatasetConfig, output_paths: OutputPaths) -> (r: WartsDataPreprocessor)
        ensures
            r.config == config,
            r.output_paths == output_paths,
    {
        WartsDataPreprocessor { config, output_paths }
    }
}

/// Preprocessing driven by a single set of builder parameters.
pub struct Preprocessor {
    pub config: GraphBuilderParameters,
}

impl Preprocessor {
    pub fn new(config: GraphBuilderParameters) -> (r: Preprocessor)
        ensures
            r.config == config,
    {
        Preprocessor { config }
    }
}

/// Folds the shards of every input file into the edge list, the mapping and
/// the maximum identifiers.
pub struct Merger {
    pub config: DatasetConfig,
    pub output_paths: OutputPaths,
}

impl Merger {
    pub fn new(config: DatasetConfig, output_paths: OutputPaths) -> (r: Merger)
        ensures
            r.config == config,
            r.output_paths == output_paths,
    {
        Merger { config, output_paths }
    }
}

/// Loads the graph and computes the requested statistics.
pub struct Grapher {
    pub config: DatasetConfig,
    pub output_paths: OutputPaths,
    pub parameters: GraphParametersToCompute,
}

impl Grapher {
    pub fn new(config: DatasetConfig, output_paths: OutputPaths, parameters: GraphParametersToCompute) -> (r: Grapher)
        ensures
            r.config == config,
            r.output_paths == output_paths,
            r.parameters == parameters,
    {
        Grapher { config, output_paths, parameters }
    }
}

} // verus!
