use fingermouse::telemetry::metrics_head;

#[test]
fn head_announces_the_length_of_the_body() {
    assert_eq!(
        metrics_head(1234),
        "HTTP/1.1 200 OK\r\ncontent-type: text/plain; version=0.0.4\r\n\
         cache-control: no-cache\r\nconnection: close\r\ncontent-length: 1234\r\n\r\n"
    );
    assert!(metrics_head(0).ends_with("content-length: 0\r\n\r\n"));
}
