//! Model kinds of the learned graph-embedding export.
//!
//! The embedding model itself is an opaque outside producer of
//! `card -> vector` lookups; only the model kind named in its export is
//! interpreted here. An unrecognized name defaults to the convolutional
//! kind on load.

use vstd::prelude::*;

use crate::strings::str_eq;

verus! {

/// Supported graph-embedding model kinds.
#[derive(Clone, Copy, Debug, PartialEq, Eq, Structural)]
pub enum GNNModelType {
    /// Graph convolutional network, the baseline and the default.
    GCN,
    /// Attention-based graph network.
    GAT,
    /// Inductive sampling-and-aggregating network.
    GraphSAGE,
}

/// The kind a model name denotes; unrecognized names mean the baseline.
pub open spec fn spec_model_type(s: Seq<char>) -> GNNModelType {
    if s == "GAT"@ {
        GNNModelType::GAT
    } else if s == "GraphSAGE"@ {
        GNNModelType::GraphSAGE
    } else {
        GNNModelType::GCN
    }
}

/// Reads a model kind from its exported name; unrecognized names default
/// to the baseline kind.
pub fn model_type_from_name(s: &str) -> (r: GNNModelType)
    ensures
        r == spec_model_type(s@),
{
    if str_eq(s, "GAT") {
        GNNModelType::GAT
    } else if str_eq(s, "GraphSAGE") {
        GNNModelType::GraphSAGE
    } else {
        GNNModelType::GCN
    }
}

/// The exported name of a model kind.
pub open spec fn spec_model_name(t: GNNModelType) -> Seq<char> {
    match t {
        GNNModelType::GCN => "GCN"@,
        GNNModelType::GAT => "GAT"@,
        GNNModelType::GraphSAGE => "GraphSAGE"@,
    }
}

/// Writes the exported name of a model kind.
pub fn model_type_name(t: &GNNModelType) -> (r: String)
    ensures
        r@ == spec_model_name(*t),
{
    match t {
        GNNModelType::GCN => "GCN".to_owned(),
        GNNModelType::GAT => "GAT".to_owned(),
        GNNModelType::GraphSAGE => "GraphSAGE".to_owned(),
    }
}

} // verus!
