use route_proxy::sysproxy::{
    gsettings_value, linux_backup, linux_disable_commands, linux_enable_commands, linux_restore,
    mac_backup, mac_disable_commands, mac_enable_commands, mac_restore, proxy_value_names,
    read_value, split_host_port, windows_backup, windows_disable_commands,
    windows_enable_commands, windows_restore_commands, Command,
};

const KEY: &str = "HKCU\\Software\\Microsoft\\Windows\\CurrentVersion\\Internet Settings";

fn args(c: &Command) -> Vec<&str> {
    c.args.iter().map(|s| s.as_str()).collect()
}

#[test]
fn host_and_port_of_listen_address() {
    assert_eq!(split_host_port("127.0.0.1:9999"), ("127.0.0.1".to_string(), "9999".to_string()));
    assert_eq!(split_host_port("localhost"), ("localhost".to_string(), "1080".to_string()));
    assert_eq!(split_host_port("a:b:c"), ("a:b".to_string(), "c".to_string()));
    assert_eq!(split_host_port(":"), ("".to_string(), "".to_string()));
}

#[test]
fn gsettings_answers_lose_whitespace_and_quotes() {
    assert_eq!(gsettings_value("'manual'\n"), "manual");
    assert_eq!(gsettings_value("  ''  "), "");
    assert_eq!(gsettings_value("1080\n"), "1080");
    assert_eq!(gsettings_value("'it's'"), "it's");
}

#[test]
fn linux_backup_format_and_roundtrip() {
    let b = linux_backup("manual", "127.0.0.1", "1080");
    assert_eq!(b, "mode=manual\nhost=127.0.0.1\nport=1080\n");
    let r = linux_restore(&b);
    assert_eq!((r.mode.as_str(), r.host.as_str(), r.port.as_str()), ("manual", "127.0.0.1", "1080"));
    let r = linux_restore("");
    assert_eq!((r.mode.as_str(), r.host.as_str(), r.port.as_str()), ("none", "", ""));
    let r = linux_restore("mode=auto\r\nhost=h=x\nmode=manual\njunk\n");
    assert_eq!((r.mode.as_str(), r.host.as_str(), r.port.as_str()), ("manual", "h=x", ""));
}

#[test]
fn linux_commands() {
    let c = linux_enable_commands("127.0.0.1:8080");
    assert_eq!(c.len(), 3);
    assert_eq!(args(&c[0]), vec!["set", "org.gnome.system.proxy.socks", "host", "127.0.0.1"]);
    assert_eq!(args(&c[1]), vec!["set", "org.gnome.system.proxy.socks", "port", "8080"]);
    assert_eq!(args(&c[2]), vec!["set", "org.gnome.system.proxy", "mode", "manual"]);
    assert!(c.iter().all(|c| c.must_succeed));

    let c = linux_disable_commands(None);
    assert_eq!(c.len(), 1);
    assert_eq!(args(&c[0]), vec!["set", "org.gnome.system.proxy", "mode", "none"]);

    let c = linux_disable_commands(Some("mode=none\nhost=\nport=0\n"));
    assert_eq!(c.len(), 1);
    assert_eq!(args(&c[0]), vec!["set", "org.gnome.system.proxy", "mode", "none"]);

    let c = linux_disable_commands(Some("mode=manual\nhost=10.0.0.1\nport=1081\n"));
    assert_eq!(c.len(), 3);
    assert_eq!(args(&c[0]), vec!["set", "org.gnome.system.proxy.socks", "host", "10.0.0.1"]);
    assert_eq!(args(&c[1]), vec!["set", "org.gnome.system.proxy.socks", "port", "1081"]);
    assert_eq!(args(&c[2]), vec!["set", "org.gnome.system.proxy", "mode", "manual"]);
}

#[test]
fn mac_backup_keeps_three_fields() {
    let info = "Enabled: Yes\nServer: 127.0.0.1\nPort: 1080\nAuthenticated Proxy Enabled: 0\n";
    let b = mac_backup(info);
    assert_eq!(b, "enabled=Yes\nserver=127.0.0.1\nport=1080\n");
    let r = mac_restore(&b);
    assert_eq!((r.enabled.as_str(), r.server.as_str(), r.port.as_str()), ("on", "127.0.0.1", "1080"));
    assert_eq!(mac_backup("no colon here\n  Port :  22  \r\n"), "port=22\n");
    let r = mac_restore("enabled=No\n");
    assert_eq!((r.enabled.as_str(), r.server.as_str(), r.port.as_str()), ("off", "", ""));
}

#[test]
fn mac_commands() {
    let c = mac_enable_commands("127.0.0.1:7890");
    assert_eq!(c.len(), 2);
    assert_eq!(args(&c[0]), vec!["-setsocksfirewallproxy", "Wi-Fi", "127.0.0.1", "7890"]);
    assert_eq!(args(&c[1]), vec!["-setsocksfirewallproxystate", "Wi-Fi", "on"]);

    let c = mac_disable_commands(None);
    assert_eq!(c.len(), 1);
    assert_eq!(args(&c[0]), vec!["-setsocksfirewallproxystate", "Wi-Fi", "off"]);

    let c = mac_disable_commands(Some("enabled=Yes\nserver=10.1.1.1\nport=9\n"));
    assert_eq!(c.len(), 2);
    assert_eq!(args(&c[0]), vec!["-setsocksfirewallproxy", "Wi-Fi", "10.1.1.1", "9"]);
    assert_eq!(args(&c[1]), vec!["-setsocksfirewallproxystate", "Wi-Fi", "on"]);

    let c = mac_disable_commands(Some("enabled=Yes\nserver=\nport=9\n"));
    assert_eq!(c.len(), 1);
    assert_eq!(args(&c[0]), vec!["-setsocksfirewallproxystate", "Wi-Fi", "on"]);
}

#[test]
fn reg_query_values() {
    let out = "\r\nHKEY_CURRENT_USER\\Software\\Microsoft\\Windows\\CurrentVersion\\Internet Settings\r\n    ProxyServer    REG_SZ    127.0.0.1:9999\r\n\r\n";
    assert_eq!(read_value(out, "ProxyServer").as_deref(), Some("127.0.0.1:9999"));
    assert_eq!(read_value(out, "ProxyEnable"), None);
    let out = "\r\nHKEY\r\n    ProxyEnable    REG_DWORD    0x1\r\n";
    assert_eq!(read_value(out, "ProxyEnable").as_deref(), Some("1"));
    let out = "    ProxyOverride    REG_SZ    localhost;127.*;<local>\n";
    assert_eq!(read_value(out, "ProxyOverride").as_deref(), Some("localhost;127.*;<local>"));
    assert_eq!(read_value("    ProxyServer\n", "ProxyServer"), None);
}

#[test]
fn windows_backup_then_restore() {
    let (a, b, c) = proxy_value_names();
    assert_eq!((a, b, c), ("ProxyEnable", "ProxyServer", "ProxyOverride"));
    let backup = windows_backup(Some("1"), Some("127.0.0.1:9999"), None);
    assert_eq!(backup, "ProxyEnable=1\nProxyServer=127.0.0.1:9999\nProxyOverride=\n");
    let c = windows_restore_commands(&backup);
    assert_eq!(c.len(), 3);
    assert_eq!(args(&c[0]), vec!["add", KEY, "/v", "ProxyEnable", "/t", "REG_DWORD", "/d", "1", "/f"]);
    assert_eq!(args(&c[1]), vec!["add", KEY, "/v", "ProxyServer", "/t", "REG_SZ", "/d", "127.0.0.1:9999", "/f"]);
    assert_eq!(args(&c[2]), vec!["delete", KEY, "/v", "ProxyOverride", "/f"]);
    assert!(c[0].must_succeed && c[1].must_succeed && !c[2].must_succeed);
    assert_eq!(windows_restore_commands("no equals\n").len(), 0);
}

#[test]
fn windows_commands() {
    let c = windows_enable_commands("127.0.0.1:9999");
    assert_eq!(c.len(), 3);
    assert_eq!(args(&c[0]), vec!["add", KEY, "/v", "ProxyEnable", "/t", "REG_DWORD", "/d", "1", "/f"]);
    assert_eq!(args(&c[1]), vec!["add", KEY, "/v", "ProxyServer", "/t", "REG_SZ", "/d", "127.0.0.1:9999", "/f"]);
    assert_eq!(args(&c[2]), vec!["add", KEY, "/v", "ProxyOverride", "/t", "REG_SZ", "/d", "localhost;127.*;<local>", "/f"]);
    let c = windows_disable_commands(None);
    assert_eq!(c.len(), 1);
    assert_eq!(args(&c[0]), vec!["add", KEY, "/v", "ProxyEnable", "/t", "REG_DWORD", "/d", "0", "/f"]);
    let c = windows_disable_commands(Some("ProxyEnable=0\n"));
    assert_eq!(c.len(), 1);
    assert_eq!(args(&c[0]), vec!["add", KEY, "/v", "ProxyEnable", "/t", "REG_DWORD", "/d", "0", "/f"]);
}
