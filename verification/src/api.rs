//! What the vector query endpoints do before and after they query a store.

use crate::float::Float32;
use crate::rpc::{FetchNeighbors, RPCResponseBody, ResponseView, Vector, VectorANN};
use crate::types::{MetricResult, VectorId, VectorIdValue};
use actix_web::body::MessageBody;
use actix_web::HttpResponse;
use vstd::prelude::*;
use vstd::utf8::encode_utf8;

verus! {

/// The vector stores by name.
pub struct VectorStoreMap<S> {
    entries: Vec<(String, S)>,
}

/// The entries as a map, in which a later entry of the same name replaces an earlier one.
spec fn entries_map<S>(entries: Seq<(String, S)>) -> Map<Seq<char>, S>
    decreases entries.len(),
{
    if entries.len() == 0 {
        Map::empty()
    } else {
        entries_map(entries.drop_last()).insert(entries.last().0@, entries.last().1)
    }
}

impl<S> View for VectorStoreMap<S> {
    type V = Map<Seq<char>, S>;

    closed spec fn view(&self) -> Map<Seq<char>, S> {
        entries_map(self.entries@)
    }
}

impl<S> VectorStoreMap<S> {
    /// No stores.
    pub fn new() -> (r: VectorStoreMap<S>)
        ensures
            r@ == Map::<Seq<char>, S>::empty(),
    {
        VectorStoreMap { entries: Vec::new() }
    }

    /// Adds a store under a name, in place of any other store of that name.
    pub fn insert(&mut self, name: String, store: S)
        ensures
            final(self)@ == old(self)@.insert(name@, store),
    {
        self.entries.push((name, store));
        assert(self.entries@.drop_last() =~= old(self).entries@);
    }

    /// The store of a name.
    pub fn get(&self, name: &String) -> (r: Option<&S>)
        ensures
            match r {
                Some(store) => self@.contains_key(name@) && *store == self@[name@],
                None => !self@.contains_key(name@),
            },
    {
        let mut i: usize = self.entries.len();
        assert(self.entries@.take(i as int) =~= self.entries@);
        while i > 0
            invariant
                i <= self.entries@.len(),
                ({
                    let rest = entries_map(self.entries@.take(i as int));
                    &&& rest.contains_key(name@) == self@.contains_key(name@)
                    &&& rest.contains_key(name@) ==> rest[name@] == self@[name@]
                }),
            decreases i,
        {
            i = i - 1;
            let entry = &self.entries[i];
            assert(self.entries@.take(i + 1).drop_last() =~= self.entries@.take(i as int));
            if entry.0 == *name {
                return Some(&entry.1);
            }
        }
        None
    }
}

/// A reply that reports a failure: its status code and the bytes of its body.
pub struct ErrorReply {
    pub status: u16,
    pub body: Vec<u8>,
}

impl ErrorReply {
    /// The reply to a request that failed on the server's side with the given message.
    pub open spec fn reports(&self, message: Seq<char>) -> bool {
        &&& self.status == 500
        &&& self.body@ == encode_utf8(message)
    }
}

/// The response that `actix_web::HttpResponse::InternalServerError().body(message)` builds: its
/// status code is 500 and its body holds the message in UTF-8.
#[verifier::external_body]
fn internal_server_error(message: String) -> (r: ErrorReply)
    ensures
        r.status == 500,
        r.body@ == encode_utf8(message@),
{
    let response = HttpResponse::InternalServerError().body(message);
    let status = response.status().as_u16();
    let body = response.into_body().try_into_bytes().unwrap_or_default().to_vec();
    ErrorReply { status, body }
}

/// What is answered when there is no store of the requested name.
pub open spec fn not_found_message() -> Seq<char> {
    "Vector store not found"@
}

fn store_not_found() -> (r: ErrorReply)
    ensures
        r.reports(not_found_message()),
{
    internal_server_error("Vector store not found".to_owned())
}

/// Starts a request for neighbors: the store to query and the vector to query it for, or the
/// reply when there is no such store.
pub fn begin_fetch<'a, S>(stores: &'a VectorStoreMap<S>, body: &FetchNeighbors) -> (r: Result<
    (&'a S, VectorId),
    ErrorReply,
>)
    ensures
        match r {
            Ok((store, id)) => {
                &&& stores@.contains_key(body.vector_db_name@)
                &&& *store == stores@[body.vector_db_name@]
                &&& id == VectorId(body.vector_id.0)
            },
            Err(reply) => {
                &&& !stores@.contains_key(body.vector_db_name@)
                &&& reply.reports(not_found_message())
                &&& reply.status == 500
                &&& reply.body@ == encode_utf8("Vector store not found"@)
            },
        },
{
    match stores.get(&body.vector_db_name) {
        Some(store) => Ok((store, VectorId::from(body.vector_id))),
        None => Err(store_not_found()),
    }
}

/// A vector and its neighbors, as a store finds them.
pub type FoundNeighbors = (VectorId, Vec<(VectorId, MetricResult)>);

/// The answer for one vector: the numbers and distances that were found, without the values.
pub open spec fn neighbors_reply(found: FoundNeighbors) -> ResponseView {
    ResponseView::Neighbors {
        id: VectorIdValue(found.0.0),
        values: Seq::empty(),
        neighbors: found.1@.map_values(
            |n: (VectorId, MetricResult)| (VectorIdValue(n.0.0), n.1),
        ),
    }
}

/// The answers for the vectors that were found, in order.
pub open spec fn neighbors_replies(result: Seq<Option<FoundNeighbors>>) -> Seq<ResponseView> {
    result.filter(|r: Option<FoundNeighbors>| r is Some).map_values(
        |r: Option<FoundNeighbors>| neighbors_reply(r->0),
    )
}

/// A vector that was found is answered with its own number, without values, and with as many
/// neighbors as were found: each by the number and the distance found at that position.
pub proof fn found_vectors_are_answered(found: FoundNeighbors)
    ensures
        neighbors_replies(seq![Some(found)]).len() == 1,
        neighbors_replies(seq![Some(found)])[0] matches ResponseView::Neighbors {
            id,
            values,
            neighbors,
        } && {
            &&& id.0 == found.0.0
            &&& values.len() == 0
            &&& neighbors.len() == found.1@.len()
            &&& forall|k: int|
                0 <= k < neighbors.len() ==> (#[trigger] neighbors[k]).0.0 == found.1@[k].0.0
                    && neighbors[k].1 == found.1@[k].1
        },
{
    let one = seq![Some(found)];
    let kept = |r: Option<FoundNeighbors>| r is Some;
    reveal_with_fuel(Seq::filter, 2);
    assert(one.drop_last() =~= Seq::empty());
    assert(one.filter(kept) =~= one);
}

/// What is answered about a vector converts back to what was found: its own number, and at each
/// position the neighbor that was found there, at the same distance.
pub proof fn answers_convert_back(found: FoundNeighbors)
    ensures
        neighbors_reply(found) matches ResponseView::Neighbors { id, values, neighbors } && {
            &&& <VectorId as vstd::std_specs::convert::FromSpec<VectorIdValue>>::from_spec(id)
                == found.0
            &&& values.len() == 0
            &&& neighbors.len() == found.1@.len()
            &&& forall|k: int|
                #![trigger neighbors[k]]
                0 <= k < neighbors.len() ==> <VectorId as vstd::std_specs::convert::FromSpec<
                    VectorIdValue,
                >>::from_spec(neighbors[k].0) == found.1@[k].0 && neighbors[k].1
                    == found.1@[k].1
        },
{
}

/// A vector that was not found gets no answer.
pub proof fn missing_vectors_are_not_answered()
    ensures
        neighbors_replies(seq![None::<FoundNeighbors>]).len() == 0,
        neighbors_replies(Seq::<Option<FoundNeighbors>>::empty()).len() == 0,
{
    let one = seq![None::<FoundNeighbors>];
    reveal_with_fuel(Seq::filter, 2);
    assert(one.drop_last() =~= Seq::empty());
}

/// Two answers to a fetch that name the same vector and the same neighbors come from the same
/// numbers: nothing that was found is confused with something else.
pub proof fn answers_tell_what_was_found(a: FoundNeighbors, b: FoundNeighbors)
    requires
        neighbors_replies(seq![Some(a)]) == neighbors_replies(seq![Some(b)]),
    ensures
        a.0 == b.0,
        a.1@ == b.1@,
{
    found_vectors_are_answered(a);
    found_vectors_are_answered(b);
    let x = neighbors_replies(seq![Some(a)])[0]->neighbors;
    assert forall|k: int| 0 <= k < a.1@.len() implies a.1@[k] == b.1@[k] by {
        assert(x[k].0.0 == a.1@[k].0.0);
        assert(x[k].0.0 == b.1@[k].0.0);
    }
    assert(a.1@ =~= b.1@);
}

/// A search is answered with as many entries as were found: each the number and the distance
/// found at that position.
pub proof fn all_nearest_are_answered(found: Seq<(VectorId, MetricResult)>)
    ensures
        nearest_reply(found) matches ResponseView::Nearest { knn } && {
            &&& knn.len() == found.len()
            &&& forall|j: int|
                0 <= j < knn.len() ==> (#[trigger] knn[j]).0 == found[j].0.0 && knn[j].1
                    == found[j].1
        },
{
}

/// A reply that reports a failure has the status of a server error, and its body reads back as
/// the message and nothing else.
pub proof fn error_replies_carry_their_message(reply: ErrorReply, message: Seq<char>)
    ensures
        reply.reports(message) <==> reply.status == 500 && vstd::utf8::valid_utf8(reply.body@)
            && vstd::utf8::decode_utf8(reply.body@) == message,
{
    vstd::utf8::encode_utf8_valid_utf8(message);
    vstd::utf8::encode_utf8_decode_utf8(message);
    if vstd::utf8::valid_utf8(reply.body@) {
        vstd::utf8::decode_utf8_encode_utf8(reply.body@);
    }
}

/// Each result is answered on its own: the answers to two batches are the answers to both.
pub proof fn replies_in_batches(a: Seq<Option<FoundNeighbors>>, b: Seq<Option<FoundNeighbors>>)
    ensures
        neighbors_replies(a + b) == neighbors_replies(a) + neighbors_replies(b),
{
    Seq::filter_distributes_over_add(a, b, |r: Option<FoundNeighbors>| r is Some);
    assert(neighbors_replies(a + b) =~= neighbors_replies(a) + neighbors_replies(b));
}

fn neighbors_body(found: &FoundNeighbors) -> (r: RPCResponseBody)
    ensures
        r@ == neighbors_reply(*found),
        r matches RPCResponseBody::RespFetchNeighbors { vector, neighbors } && {
            &&& vector.id.0 == found.0.0
            &&& vector.values@.len() == 0
            &&& neighbors@.len() == found.1@.len()
            &&& forall|k: int|
                0 <= k < neighbors@.len() ==> (#[trigger] neighbors@[k]).0.0 == found.1@[k].0.0
                    && neighbors@[k].1 == found.1@[k].1
        },
{
    let mut neighbors: Vec<(VectorIdValue, MetricResult)> = Vec::new();
    let mut i: usize = 0;
    while i < found.1.len()
        invariant
            i <= found.1@.len(),
            neighbors@ == found.1@.take(i as int).map_values(
                |n: (VectorId, MetricResult)| (VectorIdValue(n.0.0), n.1),
            ),
        decreases found.1@.len() - i,
    {
        let (id, distance) = found.1[i];
        neighbors.push((VectorIdValue::from(id), distance));
        i = i + 1;
    }
    assert(found.1@.take(i as int) =~= found.1@);
    let values: Vec<Float32> = Vec::new();
    let vector = Vector { id: VectorIdValue::from(found.0), values };
    let body = RPCResponseBody::RespFetchNeighbors { vector, neighbors };
    assert(body@->values =~= neighbors_reply(*found)->values);
    body
}

/// Ends a request for neighbors: one answer for each vector that the store found.
pub fn finish_fetch(result: &Vec<Option<FoundNeighbors>>) -> (r: Vec<RPCResponseBody>)
    ensures
        r@.map_values(|body: RPCResponseBody| body@) == neighbors_replies(result@),
        r@.len() == result@.filter(|x: Option<FoundNeighbors>| x is Some).len(),
        forall|j: int|
            #![trigger r@[j]]
            0 <= j < r@.len() ==> {
                let found = result@.filter(|x: Option<FoundNeighbors>| x is Some)[j]->0;
                &&& r@[j] matches RPCResponseBody::RespFetchNeighbors { vector, neighbors }
                &&& vector.id.0 == found.0.0
                &&& vector.values@.len() == 0
                &&& neighbors@.len() == found.1@.len()
                &&& forall|k: int|
                    0 <= k < neighbors@.len() ==> (#[trigger] neighbors@[k]).0.0 == found.1@[k].0.0
                        && neighbors@[k].1 == found.1@[k].1
            },
{
    let mut replies: Vec<RPCResponseBody> = Vec::new();
    let mut i: usize = 0;
    proof {
        reveal(Seq::filter);
        assert(replies@.map_values(|body: RPCResponseBody| body@) =~= neighbors_replies(
            result@.take(0),
        ));
    }
    while i < result.len()
        invariant
            i <= result@.len(),
            replies@.map_values(|body: RPCResponseBody| body@) == neighbors_replies(
                result@.take(i as int),
            ),
        decreases result@.len() - i,
    {
        let ghost before = replies@.map_values(|body: RPCResponseBody| body@);
        proof {
            reveal(Seq::filter);
            assert(result@.take(i + 1).drop_last() =~= result@.take(i as int));
        }
        if let Some(found) = &result[i] {
            let body = neighbors_body(found);
            replies.push(body);
            assert(replies@.map_values(|body: RPCResponseBody| body@) =~= before.push(
                neighbors_reply(*found),
            ));
        }
        assert(replies@.map_values(|body: RPCResponseBody| body@) =~= neighbors_replies(
            result@.take(i + 1),
        ));
        i = i + 1;
    }
    assert(result@.take(i as int) =~= result@);
    proof {
        let views = replies@.map_values(|body: RPCResponseBody| body@);
        assert(views.len() == replies@.len());
        assert forall|j: int| #![trigger replies@[j]] 0 <= j < replies@.len() implies {
            let found = result@.filter(|x: Option<FoundNeighbors>| x is Some)[j]->0;
            replies@[j]@ == neighbors_reply(found)
        } by {
            assert(views[j] == replies@[j]@);
        }
    }
    replies
}

/// Starts a search: the store to query and the vector to query it with, or the reply when there
/// is no such store.
pub fn begin_search<'a, S>(stores: &'a VectorStoreMap<S>, body: VectorANN) -> (r: Result<
    (&'a S, Vec<Float32>),
    ErrorReply,
>)
    ensures
        match r {
            Ok((store, vector)) => {
                &&& stores@.contains_key(body.vector_db_name@)
                &&& *store == stores@[body.vector_db_name@]
                &&& vector == body.vector
            },
            Err(reply) => {
                &&& !stores@.contains_key(body.vector_db_name@)
                &&& reply.reports(not_found_message())
                &&& reply.status == 500
                &&& reply.body@ == encode_utf8("Vector store not found"@)
            },
        },
{
    match stores.get(&body.vector_db_name) {
        Some(store) => Ok((store, body.vector)),
        None => Err(store_not_found()),
    }
}

/// The answer to a search: the numbers and distances that were found, in order.
pub open spec fn nearest_reply(found: Seq<(VectorId, MetricResult)>) -> ResponseView {
    ResponseView::Nearest { knn: found.map_values(|n: (VectorId, MetricResult)| (n.0.0, n.1)) }
}

/// Ends a search: the answer, or the reply that reports why the store failed.
pub fn finish_search(result: Result<Vec<(VectorId, MetricResult)>, String>) -> (r: Result<
    RPCResponseBody,
    ErrorReply,
>)
    ensures
        match (result, r) {
            (Ok(found), Ok(body)) => body@ == nearest_reply(found@),
            (Err(message), Err(reply)) => reply.reports(message@),
            _ => false,
        },
        match (result, r) {
            (Ok(found), Ok(body)) => {
                &&& body matches RPCResponseBody::RespVectorKNN { knn }
                &&& knn@.len() == found@.len()
                &&& forall|j: int|
                    0 <= j < knn@.len() ==> (#[trigger] knn@[j]).0 == found@[j].0.0 && knn@[j].1
                        == found@[j].1
            },
            (Err(message), Err(reply)) => reply.status == 500 && reply.body@ == encode_utf8(
                message@,
            ),
            _ => false,
        },
{
    let found = match result {
        Ok(found) => found,
        Err(message) => return Err(internal_server_error(message)),
    };
    let mut knn: Vec<(u32, MetricResult)> = Vec::new();
    let mut i: usize = 0;
    while i < found.len()
        invariant
            i <= found@.len(),
            knn@ == found@.take(i as int).map_values(
                |n: (VectorId, MetricResult)| (n.0.0, n.1),
            ),
        decreases found@.len() - i,
    {
        let (id, distance) = found[i];
        knn.push((id.0, distance));
        i = i + 1;
    }
    assert(found@.take(i as int) =~= found@);
    Ok(RPCResponseBody::RespVectorKNN { knn })
}

} // verus!
