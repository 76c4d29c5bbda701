//! A pairing of a trained meta-model with a graph scoring algorithm.
//!
//! The pair is identified by a compound name; what the pair computes on a
//! graph lives with the consumer of the hierarchy, outside this library.

use vstd::prelude::*;

verus! {

/// The trained meta-model of the pair.
#[derive(Clone, Copy, Debug, PartialEq, Eq, Structural)]
pub enum TrainedMetaMlModel {
    /// A linear regression over the cluster properties.
    LinearRegression,
    /// A decision tree over the cluster properties.
    DecisionTree,
}

impl TrainedMetaMlModel {
    /// The short name of the model.
    pub open spec fn short_name_spec(&self) -> Seq<char> {
        match *self {
            TrainedMetaMlModel::LinearRegression => "lr"@,
            TrainedMetaMlModel::DecisionTree => "dt"@,
        }
    }

    /// The short name of the model.
    pub fn short_name(&self) -> (r: &'static str)
        ensures
            r@ == self.short_name_spec(),
    {
        match *self {
            TrainedMetaMlModel::LinearRegression => "lr",
            TrainedMetaMlModel::DecisionTree => "dt",
        }
    }
}

/// The graph scoring algorithm of the pair.
#[derive(Clone, Copy, Debug, PartialEq, Eq, Structural)]
pub enum GraphAlgorithm {
    /// Score by cluster cardinality.
    ClusterCardinality,
    /// Score by the cardinality of the connected component.
    ComponentCardinality,
    /// Score by vertex degree.
    VertexDegree,
}

impl GraphAlgorithm {
    /// The short name of the algorithm.
    pub open spec fn name_spec(&self) -> Seq<char> {
        match *self {
            GraphAlgorithm::ClusterCardinality => "cc"@,
            GraphAlgorithm::ComponentCardinality => "gn"@,
            GraphAlgorithm::VertexDegree => "vd"@,
        }
    }

    /// The short name of the algorithm.
    pub fn name(&self) -> (r: &'static str)
        ensures
            r@ == self.name_spec(),
    {
        match *self {
            GraphAlgorithm::ClusterCardinality => "cc",
            GraphAlgorithm::ComponentCardinality => "gn",
            GraphAlgorithm::VertexDegree => "vd",
        }
    }
}

/// A meta-model paired with a graph scoring algorithm.
#[derive(Clone, Copy, Debug, PartialEq, Eq, Structural)]
pub struct TrainedCombination {
    /// The meta-model of the pair.
    pub meta_ml: TrainedMetaMlModel,
    /// The scoring algorithm of the pair.
    pub graph_algorithm: GraphAlgorithm,
}

impl TrainedCombination {
    /// Pair a meta-model with a scoring algorithm.
    pub fn new(meta_ml: TrainedMetaMlModel, graph_algorithm: GraphAlgorithm) -> (r:
        TrainedCombination)
        ensures
            r.meta_ml == meta_ml,
            r.graph_algorithm == graph_algorithm,
    {
        TrainedCombination { meta_ml, graph_algorithm }
    }

    /// The name of the pair: the model's short name and the algorithm's
    /// name, joined by a dash.
    pub fn name(&self) -> (r: String)
        ensures
            r@ == self.meta_ml.short_name_spec() + "-"@ + self.graph_algorithm.name_spec(),
    {
        let s = String::from_str(self.meta_ml.short_name());
        let s = s.concat("-");
        s.concat(self.graph_algorithm.name())
    }
}

} // verus!
