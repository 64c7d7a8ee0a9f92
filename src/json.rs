//! The decoded frame of one capture line, Ethernet to application layer,
//! and the host names that it shows.
use vstd::prelude::*;

verus! {

/// Where an observed host name came from.
#[derive(Debug, Clone, Copy, PartialEq, Eq, Structural)]
pub enum Source {
    DNS,
    TLS,
    HTTP,
}

impl Source {
    pub open spec fn spec_str(self) -> Seq<char> {
        match self {
            Source::DNS => "dns"@,
            Source::TLS => "tls"@,
            Source::HTTP => "http"@,
        }
    }

    /// The lower-case name of the source.
    pub fn as_str(&self) -> (r: &'static str)
        ensures
            r@ == self.spec_str(),
    {
        match self {
            Source::DNS => "dns",
            Source::TLS => "tls",
            Source::HTTP => "http",
        }
    }
}

/// Observed names as plain values.
pub open spec fn names_view(v: Seq<(Source, String)>) -> Seq<(Source, Seq<char>)> {
    v.map_values(|n: (Source, String)| (n.0, n.1@))
}

/// A decoded packet.
#[derive(Debug, PartialEq)]
pub enum Pkt {
    Ether((Dummy, IP)),
}

impl Pkt {
    pub open spec fn names(&self) -> Seq<(Source, Seq<char>)> {
        match self {
            Pkt::Ether((_, ip)) => ip.names(),
        }
    }

    /// The host names that the packet shows, in order.
    pub fn get_names(&self) -> (r: Vec<(Source, String)>)
        ensures
            names_view(r@) == self.names(),
    {
        match self {
            Pkt::Ether((_, ip)) => ip.get_names(),
        }
    }
}

/// A header whose fields play no part here.
#[derive(Debug, PartialEq)]
pub struct Dummy {}

#[derive(Debug, PartialEq)]
pub enum IP {
    IPv4((Dummy, IPv4)),
}

impl IP {
    pub open spec fn names(&self) -> Seq<(Source, Seq<char>)> {
        match self {
            IP::IPv4((_, ipv4)) => ipv4.names(),
        }
    }

    pub fn get_names(&self) -> (r: Vec<(Source, String)>)
        ensures
            names_view(r@) == self.names(),
    {
        match self {
            IP::IPv4((_, ipv4)) => ipv4.get_names(),
        }
    }
}

#[derive(Debug, PartialEq)]
pub enum IPv4 {
    TCP((Dummy, TCP)),
    UDP((Dummy, UDP)),
}

impl IPv4 {
    pub open spec fn names(&self) -> Seq<(Source, Seq<char>)> {
        match self {
            IPv4::TCP((_, tcp)) => tcp.names(),
            IPv4::UDP((_, udp)) => udp.names(),
        }
    }

    pub fn get_names(&self) -> (r: Vec<(Source, String)>)
        ensures
            names_view(r@) == self.names(),
    {
        match self {
            IPv4::TCP((_, tcp)) => tcp.get_names(),
            IPv4::UDP((_, udp)) => udp.get_names(),
        }
    }
}

#[derive(Debug, PartialEq)]
pub enum TCP {
    TLS(TLS),
    HTTP(HTTP),
}

impl TCP {
    pub open spec fn names(&self) -> Seq<(Source, Seq<char>)> {
        match self {
            TCP::TLS(tls) => tls.names(),
            TCP::HTTP(http) => http.names(),
        }
    }

    pub fn get_names(&self) -> (r: Vec<(Source, String)>)
        ensures
            names_view(r@) == self.names(),
    {
        match self {
            TCP::TLS(tls) => tls.get_names(),
            TCP::HTTP(http) => http.get_names(),
        }
    }
}

#[derive(Debug, PartialEq)]
pub enum TLS {
    ClientHello(ClientHello),
}

impl TLS {
    pub open spec fn names(&self) -> Seq<(Source, Seq<char>)> {
        match self {
            TLS::ClientHello(ch) => ch.names(),
        }
    }

    pub fn get_names(&self) -> (r: Vec<(Source, String)>)
        ensures
            names_view(r@) == self.names(),
    {
        match self {
            TLS::ClientHello(ch) => ch.get_names(),
        }
    }
}

/// A TLS ClientHello; `hostname` is its server name indication.
#[derive(Debug, PartialEq)]
pub struct ClientHello {
    pub hostname: String,
}

impl ClientHello {
    pub open spec fn names(&self) -> Seq<(Source, Seq<char>)> {
        seq![(Source::TLS, self.hostname@)]
    }

    pub fn get_names(&self) -> (r: Vec<(Source, String)>)
        ensures
            names_view(r@) == self.names(),
    {
        let r = vec![(Source::TLS, self.hostname.clone())];
        assert(names_view(r@) =~= self.names());
        r
    }
}

/// An HTTP request; `host` is its Host header.
#[derive(Debug, PartialEq)]
pub struct HTTP {
    pub host: String,
}

impl HTTP {
    pub open spec fn names(&self) -> Seq<(Source, Seq<char>)> {
        seq![(Source::HTTP, self.host@)]
    }

    pub fn get_names(&self) -> (r: Vec<(Source, String)>)
        ensures
            names_view(r@) == self.names(),
    {
        let r = vec![(Source::HTTP, self.host.clone())];
        assert(names_view(r@) =~= self.names());
        r
    }
}

#[derive(Debug, PartialEq)]
pub enum UDP {
    DNS(DNS),
}

impl UDP {
    pub open spec fn names(&self) -> Seq<(Source, Seq<char>)> {
        match self {
            UDP::DNS(dns) => dns.names(),
        }
    }

    pub fn get_names(&self) -> (r: Vec<(Source, String)>)
        ensures
            names_view(r@) == self.names(),
    {
        match self {
            UDP::DNS(dns) => dns.get_names(),
        }
    }
}

#[derive(Debug, PartialEq)]
pub enum DNS {
    Request(DNSRequest),
}

impl DNS {
    pub open spec fn names(&self) -> Seq<(Source, Seq<char>)> {
        match self {
            DNS::Request(req) => req.names(),
        }
    }

    pub fn get_names(&self) -> (r: Vec<(Source, String)>)
        ensures
            names_view(r@) == self.names(),
    {
        match self {
            DNS::Request(req) => req.get_names(),
        }
    }
}

/// A DNS request; each question is a record type and a name.
#[derive(Debug, PartialEq)]
pub struct DNSRequest {
    pub questions: Vec<(String, String)>,
}

impl DNSRequest {
    /// One DNS name per question, in the order of the questions.
    pub open spec fn names(&self) -> Seq<(Source, Seq<char>)> {
        self.questions@.map_values(|q: (String, String)| (Source::DNS, q.1@))
    }

    pub fn get_names(&self) -> (r: Vec<(Source, String)>)
        ensures
            names_view(r@) == self.names(),
    {
        let mut r: Vec<(Source, String)> = Vec::new();
        let mut i: usize = 0;
        while i < self.questions.len()
            invariant
                i <= self.questions@.len(),
                names_view(r@) =~= self.names().subrange(0, i as int),
            decreases self.questions@.len() - i,
        {
            let name = self.questions[i].1.clone();
            assert(name@ == self.questions@[i as int].1@);
            let ghost before = r@;
            r.push((Source::DNS, name));
            assert(r@ == before.push((Source::DNS, name)));
            assert(names_view(r@) =~= names_view(before).push((Source::DNS, name@)));
            assert(self.names()[i as int] == (Source::DNS, self.questions@[i as int].1@));
            assert(self.names().subrange(0, i as int + 1) =~= self.names().subrange(0, i as int).push(
                self.names()[i as int],
            ));
            assert(names_view(r@) =~= self.names().subrange(0, i as int + 1));
            i = i + 1;
        }
        assert(self.names().subrange(0, i as int) =~= self.names());
        r
    }
}

} // verus!
