use spytrap_wifi::detect::{alert_line, alerts, detect};
use spytrap_wifi::hostapd::{
    announce_line, mkconfig, passphrase_from_draws, pwgen, HotspotAction, HotspotController, HotspotError, HotspotEvent,
    HotspotState,
};
use spytrap_wifi::ioc::{index_from_records, parse_domain_iocs, IndicatorRecord, LoadError};
use spytrap_wifi::json::Source;
use spytrap_wifi::rpc::encode_message;
use spytrap_wifi::suffix::SuffixTree;

fn index(domains: &[&str]) -> SuffixTree<String> {
    let mut s = SuffixTree::new();
    for d in domains {
        s.insert(d);
    }
    s
}

#[test]
fn alert_for_flagged_http_host() {
    let iocs = index(&["mobileinnova.net", "webdetetive.com.br"]);
    let names = vec![(Source::HTTP, "cdn.webdetetive.com.br".to_string())];
    assert_eq!(detect(&iocs, &names), vec![(Source::HTTP, "cdn.webdetetive.com.br".to_string())]);
    assert_eq!(
        alerts(&iocs, &names),
        vec!["[!] detected(http): \"cdn.webdetetive.com.br\"".to_string()]
    );
}

#[test]
fn no_alert_for_other_host() {
    let iocs = index(&["github.com"]);
    let names = vec![(Source::DNS, "example.com".to_string())];
    assert!(alerts(&iocs, &names).is_empty());
    let names = vec![(Source::TLS, "www.github.com".to_string())];
    assert_eq!(alerts(&iocs, &names), vec!["[!] detected(tls): \"www.github.com\"".to_string()]);
}

#[test]
fn detect_keeps_order_and_drops_misses() {
    let iocs = index(&["a.test", "b.test"]);
    let names = vec![
        (Source::DNS, "x.b.test".to_string()),
        (Source::DNS, "c.test".to_string()),
        (Source::HTTP, "a.test".to_string()),
    ];
    assert_eq!(
        detect(&iocs, &names),
        vec![(Source::DNS, "x.b.test".to_string()), (Source::HTTP, "a.test".to_string())]
    );
}

#[test]
fn alert_line_escapes_name() {
    assert_eq!(alert_line(Source::DNS, "a\"b"), "[!] detected(dns): \"a\\\"b\"");
}

#[test]
fn index_from_rule_domains() {
    let records = vec![IndicatorRecord {
        websites: vec!["mobileinnova.net".to_string(), "panel.webdetetive.com.br".to_string()],
        distribution: vec!["webdetetive.com.br".to_string()],
        c2_domains: vec!["user.ownspy.es".to_string()],
    }];
    let iocs = index_from_records(&records);
    assert_eq!(iocs.len(), 3);
    assert!(iocs.matches("cdn.webdetetive.com.br"));
    assert!(iocs.matches("user.ownspy.es"));
    assert!(!iocs.matches("ownspy.es"));
}

#[test]
fn parse_iocs() {
    let buf = br#"---
- name: OwnSpy
  names:
  - OwnSpy
  - SaferSpy
  - WebDetetive
  type: stalkerware
  packages:
  - com.ownspy.android
  - org.system.kernel
  certificates:
  - CA5304E94F4BC97DA9D147E76858DBF70AB8B4E6
  - 14A071616D4BC37F08BE865D375101F4C963777A
  websites:
  - mobileinnova.net
  - ownspy.com
  - en.ownspy.com
  - webdetetive.com.br
  - ownspy.es
  - saferspy.com
  - panel.webdetetive.com.br
  #- era3000.com
  distribution:
  - 6287970dd9.era3000.com
  - c9db9bbc8d.era3000.com
  c2:
    domains:
    - user.ownspy.es
"#;
    let iocs = parse_domain_iocs(buf).unwrap();

    let expected = &[
        "mobileinnova.net",
        "ownspy.com",
        "en.ownspy.com",
        "webdetetive.com.br",
        "ownspy.es",
        "saferspy.com",
        "panel.webdetetive.com.br",
        "6287970dd9.era3000.com",
        "c9db9bbc8d.era3000.com",
        "user.ownspy.es",
    ];
    let expected = SuffixTree::from_domains(&expected.iter().map(|s| String::from(*s)).collect());
    assert!(iocs == expected);
}

#[test]
fn malformed_rules_are_refused() {
    assert_eq!(parse_domain_iocs(b"- [unclosed").err(), Some(LoadError::Malformed));
    let iocs = parse_domain_iocs(b"- name: Minimal\n  type: stalkerware\n").unwrap();
    assert_eq!(iocs.len(), 0);
}

#[test]
fn config_carries_identity() {
    let c = mkconfig("wlan1", "Starbucks WiFi", "abcdefghij");
    assert!(c.starts_with("\ninterface=wlan1\n"));
    assert!(c.contains("\nssid=Starbucks WiFi\n"));
    assert!(c.contains("\nwpa_passphrase=abcdefghij\n"));
    assert!(c.ends_with("rsn_pairwise=CCMP\n"));
}

#[test]
fn passphrase_is_ten_lowercase_letters() {
    for _ in 0..20 {
        let p = pwgen();
        assert_eq!(p.len(), 10);
        assert!(p.chars().all(|c| c.is_ascii_lowercase()));
    }
}

#[test]
fn passphrase_follows_draws() {
    assert_eq!(passphrase_from_draws(&vec![0, 1, 25, 2, 7, 0, 24, 13, 12, 3]), "abzchaynmd");
    assert_eq!(passphrase_from_draws(&vec![]), "");
}

#[test]
fn announcement_line() {
    assert_eq!(announce_line("Starbucks WiFi", "qwertyuiop"), "Starbucks WiFi (pw: qwertyuiop)");
}

#[test]
fn hotspot_stops_after_one_announcement_when_triggers_close() {
    let mut ctl = HotspotController::new("wlan1", "Starbucks WiFi");
    let mut action = ctl.start();
    let mut announcements = Vec::new();
    let mut outcome = None;
    for _ in 0..10 {
        action = match action {
            HotspotAction::WriteConfig(c) => {
                assert!(c.contains(&format!("wpa_passphrase={}\n", ctl.passphrase)));
                ctl.step(HotspotEvent::ConfigWritten(true))
            }
            HotspotAction::Restart => ctl.step(HotspotEvent::Restarted(false)),
            HotspotAction::Announce(line) => {
                announcements.push(line);
                ctl.step(HotspotEvent::Announced(true))
            }
            HotspotAction::AwaitTrigger => ctl.step(HotspotEvent::Trigger(false)),
            HotspotAction::Finish(r) => {
                outcome = Some(r);
                break;
            }
        };
    }
    assert_eq!(outcome, Some(Ok(())));
    assert_eq!(announcements.len(), 1);
    assert_eq!(announcements[0], format!("Starbucks WiFi (pw: {})", ctl.passphrase));
    assert_eq!(ctl.state, HotspotState::Finished);
}

#[test]
fn hotspot_rotates_on_trigger() {
    let mut ctl = HotspotController::new("wlan1", "ap");
    assert!(matches!(ctl.start(), HotspotAction::WriteConfig(_)));
    assert_eq!(ctl.step(HotspotEvent::ConfigWritten(true)), HotspotAction::Restart);
    assert!(matches!(ctl.step(HotspotEvent::Restarted(true)), HotspotAction::Announce(_)));
    assert_eq!(ctl.step(HotspotEvent::Announced(true)), HotspotAction::AwaitTrigger);
    assert!(matches!(ctl.step(HotspotEvent::Trigger(true)), HotspotAction::WriteConfig(_)));
    assert_eq!(ctl.state, HotspotState::Configuring);
    assert_eq!(ctl.passphrase.len(), 10);
}

#[test]
fn hotspot_errors() {
    let mut ctl = HotspotController::new("wlan1", "ap");
    ctl.start();
    assert_eq!(
        ctl.step(HotspotEvent::ConfigWritten(false)),
        HotspotAction::Finish(Err(HotspotError::ConfigWrite))
    );
    let mut ctl = HotspotController::new("wlan1", "ap");
    ctl.start();
    ctl.step(HotspotEvent::ConfigWritten(true));
    ctl.step(HotspotEvent::Restarted(true));
    assert_eq!(
        ctl.step(HotspotEvent::Announced(false)),
        HotspotAction::Finish(Err(HotspotError::DisplayClosed))
    );
    let mut ctl = HotspotController::new("wlan1", "ap");
    assert_eq!(
        ctl.step(HotspotEvent::Trigger(true)),
        HotspotAction::Finish(Err(HotspotError::OutOfOrder))
    );
}

#[test]
fn control_message_is_one_line() {
    assert_eq!(encode_message("rotate"), "rotate\n");
    let framed = encode_message("rotate");
    let lines: Vec<&str> = framed.lines().collect();
    assert_eq!(lines, vec!["rotate"]);
}
