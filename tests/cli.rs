use btc_adapter::cli::{Cli, CliError};
use btc_adapter::config::Config;
use btc_adapter::types::NetworkKind;

fn config_with_proxy(proxy: Option<&str>) -> Config {
    Config { network: NetworkKind::Bitcoin, socks_proxy: proxy.map(|p| p.to_string()), idle_seconds: 5 }
}

#[test]
fn config_without_proxy_passes() {
    assert!(Cli::check_config(config_with_proxy(None)).is_ok());
}

#[test]
fn proxy_with_scheme_host_and_port_passes() {
    let checked = Cli::check_config(config_with_proxy(Some("socks5://someproxy.com:80"))).ok().unwrap();
    assert_eq!(checked.socks_proxy.as_deref(), Some("socks5://someproxy.com:80"));
}

#[test]
fn proxy_without_port_is_refused() {
    let r = Cli::check_config(config_with_proxy(Some("socks5://someproxy.com")));
    assert!(matches!(r, Err(CliError::Validation(m)) if m == "Make sure socks proxy url contains (scheme,host,port)"));
}

#[test]
fn unparsable_proxy_is_refused() {
    let r = Cli::check_config(config_with_proxy(Some("not a url")));
    assert!(matches!(r, Err(CliError::Validation(m)) if m == "Failed to parse socks_proxy url"));
}
