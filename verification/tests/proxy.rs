use chrometester::proxy::{proxy_to_set, system_proxy};

fn proxy(enabled: u32, server: &str) -> Option<String> {
    system_proxy(Some(enabled), Some(server.to_string()))
}

#[test]
fn a_plain_server_is_the_proxy() {
    assert_eq!(proxy(1, "127.0.0.1:7890"), Some("http://127.0.0.1:7890".to_string()));
}

#[test]
fn the_first_entry_for_http_or_https_is_the_proxy() {
    assert_eq!(proxy(1, "http=a:1;https=b:2"), Some("http://a:1".to_string()));
    assert_eq!(proxy(1, "ftp=c:3;https=b:2;http=a:1"), Some("http://b:2".to_string()));
    assert_eq!(proxy(1, "https="), Some("http://".to_string()));
}

#[test]
fn no_proxy_where_it_is_off_or_not_named() {
    assert_eq!(proxy(0, "127.0.0.1:7890"), None);
    assert_eq!(proxy(1, ""), None);
    assert_eq!(proxy(1, "ftp=c:3;socks=d:4"), None);
    assert_eq!(system_proxy(None, Some("a:1".to_string())), None);
    assert_eq!(system_proxy(Some(1), None), None);
}

#[test]
fn the_environment_comes_before_the_system() {
    let system = Some("http://a:1".to_string());
    assert_eq!(proxy_to_set(true, system.clone()), None);
    assert_eq!(proxy_to_set(false, system.clone()), system);
    assert_eq!(proxy_to_set(false, None), None);
}
