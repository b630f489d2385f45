//! Requests and replies of the vector query endpoints.

use crate::float::Float32;
use crate::types::{MetricResult, VectorIdValue};
use vstd::prelude::*;

verus! {

/// Asks for the neighbors of a stored vector.
pub struct FetchNeighbors {
    pub vector_db_name: String,
    pub vector_id: VectorIdValue,
}

/// Asks for the stored vectors nearest to a given one.
pub struct VectorANN {
    pub vector_db_name: String,
    pub vector: Vec<Float32>,
}

/// A vector as it travels in replies.
pub struct Vector {
    pub id: VectorIdValue,
    pub values: Vec<Float32>,
}

/// What an endpoint answers.
pub enum RPCResponseBody {
    /// A vector and its neighbors with their distances.
    RespFetchNeighbors { vector: Vector, neighbors: Vec<(VectorIdValue, MetricResult)> },
    /// The nearest vectors with their distances.
    RespVectorKNN { knn: Vec<(u32, MetricResult)> },
}

/// The contents of an [`RPCResponseBody`].
pub enum ResponseView {
    Neighbors {
        id: VectorIdValue,
        values: Seq<Float32>,
        neighbors: Seq<(VectorIdValue, MetricResult)>,
    },
    Nearest { knn: Seq<(u32, MetricResult)> },
}

impl View for RPCResponseBody {
    type V = ResponseView;

    open spec fn view(&self) -> ResponseView {
        match *self {
            RPCResponseBody::RespFetchNeighbors { vector, neighbors } => ResponseView::Neighbors {
                id: vector.id,
                values: vector.values@,
                neighbors: neighbors@,
            },
            RPCResponseBody::RespVectorKNN { knn } => ResponseView::Nearest { knn: knn@ },
        }
    }
}

/// What is seen of an answer is what it holds.
pub proof fn answers_show_their_contents(body: RPCResponseBody)
    ensures
        match body {
            RPCResponseBody::RespFetchNeighbors { vector, neighbors } => {
                &&& body@ matches ResponseView::Neighbors { id, values, neighbors: seen }
                &&& id.0 == vector.id.0
                &&& values == vector.values@
                &&& seen == neighbors@
            },
            RPCResponseBody::RespVectorKNN { knn } => body@ matches ResponseView::Nearest {
                knn: seen,
            } && seen == knn@,
        },
{
}

} // verus!
