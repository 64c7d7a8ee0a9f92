use spytrap_wifi::json::{
    ClientHello, DNSRequest, Dummy, Pkt, Source, DNS, HTTP, IP, IPv4, TCP, TLS, UDP,
};

#[test]
fn extract_dns() {
    let pkt = Pkt::Ether((
        Dummy {},
        IP::IPv4((
            Dummy {},
            IPv4::UDP((
                Dummy {},
                UDP::DNS(DNS::Request(DNSRequest {
                    questions: vec![("A".to_string(), "google.com".to_string())],
                })),
            )),
        )),
    ));
    assert_eq!(pkt.get_names(), vec![(Source::DNS, "google.com".to_string())]);
}

#[test]
fn extract_sni() {
    let pkt = Pkt::Ether((
        Dummy {},
        IP::IPv4((
            Dummy {},
            IPv4::TCP((
                Dummy {},
                TCP::TLS(TLS::ClientHello(ClientHello {
                    hostname: "google.com".to_string(),
                })),
            )),
        )),
    ));
    assert_eq!(pkt.get_names(), vec![(Source::TLS, "google.com".to_string())]);
}

#[test]
fn extract_http() {
    let pkt = Pkt::Ether((
        Dummy {},
        IP::IPv4((
            Dummy {},
            IPv4::TCP((
                Dummy {},
                TCP::HTTP(HTTP {
                    host: "google.com".to_string(),
                }),
            )),
        )),
    ));
    assert_eq!(pkt.get_names(), vec![(Source::HTTP, "google.com".to_string())]);
}

#[test]
fn dns_questions_in_order() {
    let req = DNSRequest {
        questions: vec![
            ("A".to_string(), "a.example".to_string()),
            ("AAAA".to_string(), "b.example".to_string()),
            ("A".to_string(), "a.example".to_string()),
        ],
    };
    assert_eq!(
        req.get_names(),
        vec![
            (Source::DNS, "a.example".to_string()),
            (Source::DNS, "b.example".to_string()),
            (Source::DNS, "a.example".to_string()),
        ]
    );
    let none = DNSRequest { questions: vec![] };
    assert_eq!(none.get_names(), vec![]);
}

#[test]
fn source_names() {
    assert_eq!(Source::DNS.as_str(), "dns");
    assert_eq!(Source::TLS.as_str(), "tls");
    assert_eq!(Source::HTTP.as_str(), "http");
}
