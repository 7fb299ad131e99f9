use lsp_transport::server::ServerError;
use lsp_transport::sink::SharedSink;
use std::sync::Arc;

#[test]
fn server_error_carries_message_and_data() {
    let e: ServerError<u8> = ServerError::new("bad".to_string());
    assert_eq!(e, ServerError { message: "bad".to_string(), data: None });
    let d = ServerError::with_data("worse".to_string(), 7u8);
    assert_eq!(d.data, Some(7));
}

#[test]
fn shared_sink_clones_reach_one_sink() {
    let a = SharedSink::new(Vec::<u8>::new());
    let b = a.clone();
    a.shared().lock().unwrap().push(1);
    b.shared().lock().unwrap().push(2);
    assert!(Arc::ptr_eq(a.shared(), b.shared()));
    assert_eq!(*a.shared().lock().unwrap(), vec![1, 2]);
}
