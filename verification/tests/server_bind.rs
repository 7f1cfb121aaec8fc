use llm_wiki_server::server_bind::{
    bind_addr, configured_bind_host, sanitize_bind_host, DEFAULT_BIND_HOST,
};

#[test]
fn sanitize_bind_host_accepts_common_lan_hosts() {
    assert_eq!(sanitize_bind_host("0.0.0.0"), Some("0.0.0.0".to_string()));
    assert_eq!(
        sanitize_bind_host("  192.168.1.10  "),
        Some("192.168.1.10".to_string())
    );
    assert_eq!(sanitize_bind_host("::1"), Some("::1".to_string()));
    assert_eq!(sanitize_bind_host("[::]"), Some("[::]".to_string()));
}

#[test]
fn sanitize_bind_host_rejects_empty_or_address_injection() {
    assert_eq!(sanitize_bind_host(""), None);
    assert_eq!(sanitize_bind_host("0.0.0.0:19828/path"), None);
    assert_eq!(sanitize_bind_host("127.0.0.1;rm"), None);
}

#[test]
fn bind_addr_wraps_unbracketed_ipv6_hosts() {
    assert_eq!(bind_addr("127.0.0.1", 19828), "127.0.0.1:19828");
    assert_eq!(bind_addr("0.0.0.0", 19828), "0.0.0.0:19828");
    assert_eq!(bind_addr("::1", 19828), "[::1]:19828");
    assert_eq!(bind_addr("[::]", 19828), "[::]:19828");
}

#[test]
fn the_default_host_takes_the_place_of_a_missing_or_refused_one() {
    assert_eq!(configured_bind_host(None), DEFAULT_BIND_HOST);
    assert_eq!(configured_bind_host(Some("a/b")), DEFAULT_BIND_HOST);
    assert_eq!(configured_bind_host(Some(" 0.0.0.0 ")), "0.0.0.0");
}
