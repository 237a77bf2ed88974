use chat_server::header::{conn_id_from_header, ConnIdError};

#[test]
fn conn_id_header() {
    assert_eq!(conn_id_from_header(None), Err(ConnIdError::Missing));
    assert_eq!(conn_id_from_header(Some(b"42")), Ok(42));
    assert_eq!(conn_id_from_header(Some(b"+7")), Ok(7));
    assert_eq!(conn_id_from_header(Some(b"007")), Ok(7));
    assert_eq!(conn_id_from_header(Some(b"")), Err(ConnIdError::Invalid));
    assert_eq!(conn_id_from_header(Some(b"+")), Err(ConnIdError::Invalid));
    assert_eq!(conn_id_from_header(Some(b"-1")), Err(ConnIdError::Invalid));
    assert_eq!(conn_id_from_header(Some(b"4a")), Err(ConnIdError::Invalid));
    assert_eq!(conn_id_from_header(Some(b" 4")), Err(ConnIdError::Invalid));
    let max = usize::MAX.to_string();
    assert_eq!(conn_id_from_header(Some(max.as_bytes())), Ok(usize::MAX));
    let over = format!("{}0", usize::MAX);
    assert_eq!(conn_id_from_header(Some(over.as_bytes())), Err(ConnIdError::Invalid));
}
