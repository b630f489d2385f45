use vectordb::api::{begin_fetch, begin_search, finish_fetch, finish_search, VectorStoreMap};
use vectordb::float::Float32;
use vectordb::rpc::{FetchNeighbors, RPCResponseBody, VectorANN};
use vectordb::types::{CosineSimilarity, MetricResult, VectorId, VectorIdValue};

fn distance(value: f32) -> MetricResult {
    MetricResult::CosineSimilarity(CosineSimilarity(Float32 { bits: value.to_bits() }))
}

fn stores() -> VectorStoreMap<u64> {
    let mut stores = VectorStoreMap::new();
    stores.insert("cats".to_string(), 1);
    stores.insert("dogs".to_string(), 2);
    stores.insert("cats".to_string(), 3);
    stores
}

fn fetch_request(name: &str) -> FetchNeighbors {
    FetchNeighbors { vector_db_name: name.to_string(), vector_id: VectorIdValue(17) }
}

fn search_request(name: &str) -> VectorANN {
    let vector = vec![Float32 { bits: 1.5_f32.to_bits() }, Float32 { bits: 0 }];
    VectorANN { vector_db_name: name.to_string(), vector }
}

#[test]
fn a_fetch_queries_the_named_store() {
    let stores = stores();
    match begin_fetch(&stores, &fetch_request("dogs")) {
        Ok((store, id)) => {
            assert_eq!(*store, 2);
            assert_eq!(id, VectorId(17));
        }
        Err(_) => panic!("the store is there"),
    }
    assert!(matches!(begin_fetch(&stores, &fetch_request("cats")), Ok((3, VectorId(17)))));
}

#[test]
fn a_search_queries_the_named_store() {
    let stores = stores();
    match begin_search(&stores, search_request("dogs")) {
        Ok((store, vector)) => {
            assert_eq!(*store, 2);
            assert_eq!(vector.len(), 2);
            assert_eq!(vector[0].bits, 1.5_f32.to_bits());
            assert_eq!(vector[1].bits, 0);
        }
        Err(_) => panic!("the store is there"),
    }
}

#[test]
fn unknown_stores_are_a_server_error() {
    let stores = stores();
    match begin_fetch(&stores, &fetch_request("Dogs")) {
        Ok(_) => panic!("there is no such store"),
        Err(reply) => {
            assert_eq!(reply.status, 500);
            assert_eq!(reply.body, b"Vector store not found".to_vec());
        }
    }
    match begin_search(&stores, search_request("")) {
        Ok(_) => panic!("there is no such store"),
        Err(reply) => {
            assert_eq!(reply.status, 500);
            assert_eq!(reply.body, b"Vector store not found".to_vec());
        }
    }
}

#[test]
fn a_failed_search_reports_the_message() {
    match finish_search(Err("höher".to_string())) {
        Ok(_) => panic!("the search failed"),
        Err(reply) => {
            assert_eq!(reply.status, 500);
            assert_eq!(reply.body, vec![b'h', 0xc3, 0xb6, b'h', b'e', b'r']);
        }
    }
    match finish_search(Err(String::new())) {
        Ok(_) => panic!("the search failed"),
        Err(reply) => {
            assert_eq!(reply.status, 500);
            assert!(reply.body.is_empty());
        }
    }
}

#[test]
fn a_search_answers_with_what_was_found() {
    let found = vec![(VectorId(4), distance(0.75)), (VectorId(2), distance(0.5))];
    match finish_search(Ok(found)) {
        Ok(RPCResponseBody::RespVectorKNN { knn }) => {
            assert_eq!(knn.len(), 2);
            assert_eq!(knn[0].0, 4);
            assert!(knn[0].1 == distance(0.75));
            assert_eq!(knn[1].0, 2);
            assert!(knn[1].1 == distance(0.5));
        }
        _ => panic!("not an answer to a search"),
    }
}

#[test]
fn a_fetch_answers_for_what_was_found() {
    let result = vec![
        None,
        Some((VectorId(17), vec![(VectorId(3), distance(0.25)), (VectorId(5), distance(1.0))])),
        None,
        Some((VectorId(18), vec![])),
    ];
    let replies = finish_fetch(&result);
    assert_eq!(replies.len(), 2);
    match &replies[0] {
        RPCResponseBody::RespFetchNeighbors { vector, neighbors } => {
            assert_eq!(vector.id, VectorIdValue(17));
            assert!(vector.values.is_empty());
            assert_eq!(neighbors.len(), 2);
            assert_eq!(neighbors[0].0, VectorIdValue(3));
            assert!(neighbors[0].1 == distance(0.25));
            assert_eq!(neighbors[1].0, VectorIdValue(5));
            assert!(neighbors[1].1 == distance(1.0));
        }
        _ => panic!("not an answer to a fetch"),
    }
    match &replies[1] {
        RPCResponseBody::RespFetchNeighbors { vector, neighbors } => {
            assert_eq!(vector.id, VectorIdValue(18));
            assert!(neighbors.is_empty());
        }
        _ => panic!("not an answer to a fetch"),
    }
    assert!(finish_fetch(&vec![]).is_empty());
    assert!(finish_fetch(&vec![None, None]).is_empty());
}

#[test]
fn batches_are_answered_like_one_request() {
    let first = vec![Some((VectorId(1), vec![])), None];
    let second = vec![None, Some((VectorId(2), vec![]))];
    let mut both = first.clone();
    both.extend(second.clone());
    let ids = |replies: Vec<RPCResponseBody>| -> Vec<VectorIdValue> {
        replies
            .iter()
            .map(|r| match r {
                RPCResponseBody::RespFetchNeighbors { vector, .. } => vector.id,
                _ => panic!("not an answer to a fetch"),
            })
            .collect()
    };
    let mut apart = ids(finish_fetch(&first));
    apart.extend(ids(finish_fetch(&second)));
    assert_eq!(ids(finish_fetch(&both)), apart);
}
