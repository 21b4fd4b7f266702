use kvs::index::Index;
use kvs::{FileIndex, KvsError, Response};

#[test]
fn unit_responses() {
    assert_eq!(Response::of_unit(Ok(())), Response::Done);
    assert_eq!(
        Response::of_unit(Err(KvsError::NonExistentKey("k".to_string()))),
        Response::Failed("Key not found".to_string())
    );
}

#[test]
fn value_responses() {
    assert_eq!(
        Response::of_value(Ok(Some("v".to_string()))),
        Response::Value(Some("v".to_string()))
    );
    assert_eq!(Response::of_value(Ok(None)), Response::Value(None));
    assert_eq!(
        Response::of_value(Err(KvsError::IOError("disk".to_string()))),
        Response::Failed("io error disk".to_string())
    );
}

#[test]
fn error_messages() {
    assert_eq!(KvsError::DeserializeError.message(), "error when deserialize from files");
    assert_eq!(KvsError::ResponseError("x".to_string()).message(), "response error: x");
    assert_eq!(KvsError::SerdeError("y".to_string()).message(), "serde error y");
}

#[test]
fn index_put_get_remove() {
    let mut idx = Index::new();
    let a = FileIndex { segment: 1, offset: 0 };
    let b = FileIndex { segment: 2, offset: 8 };
    assert_eq!(idx.put("k".to_string(), a), None);
    assert_eq!(idx.put("k".to_string(), b), Some(a));
    assert_eq!(idx.get(&"k".to_string()), Some(b));
    assert_eq!(idx.len(), 1);
    assert_eq!(idx.remove(&"k".to_string()), Some(b));
    assert_eq!(idx.remove(&"k".to_string()), None);
    assert_eq!(idx.get(&"k".to_string()), None);
}

