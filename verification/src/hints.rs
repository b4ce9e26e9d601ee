//! The root name servers, where the resolution of a name starts.

use rand::seq::IndexedRandom;
use vstd::prelude::*;

verus! {

/// A root name server: its name, who runs it, and its addresses, IPv4 as
/// four octets and IPv6 as eight 16-bit segments.
#[derive(Debug, Clone, Copy, PartialEq, Eq)]
pub struct ServerInfo {
    pub name: &'static str,
    pub operator: &'static str,
    pub ipv4: [u8; 4],
    pub ipv6: [u16; 8],
}

/// The root name servers, from a to m.
pub open spec fn root_server_list() -> Seq<ServerInfo> {
    seq![
        ServerInfo {
            name: "a.root-servers.net",
            operator: "Verisign, Inc.",
            ipv4: [198, 41, 0, 4],
            ipv6: [0x2001, 0x503, 0xba3e, 0, 0, 0, 2, 0x30],
        },
        ServerInfo {
            name: "b.root-servers.net",
            operator: "University of Southern California, Information Sciences Institute",
            ipv4: [170, 247, 170, 2],
            ipv6: [0x2801, 0x1b8, 0x10, 0, 0, 0, 0, 0xc],
        },
        ServerInfo {
            name: "c.root-servers.net",
            operator: "Cogent Communications",
            ipv4: [192, 33, 4, 12],
            ipv6: [0x2001, 0x500, 2, 0, 0, 0, 0, 0xc],
        },
        ServerInfo {
            name: "d.root-servers.net",
            operator: "University of Maryland",
            ipv4: [199, 7, 91, 13],
            ipv6: [0x2001, 0x500, 0x2d, 0, 0, 0, 0, 0xd],
        },
        ServerInfo {
            name: "e.root-servers.net",
            operator: "NASA (Ames Research Center)",
            ipv4: [192, 203, 230, 10],
            ipv6: [0x2001, 0x500, 0xa8, 0, 0, 0, 0, 0xe],
        },
        ServerInfo {
            name: "f.root-servers.net",
            operator: "Internet Systems Consortium, Inc.",
            ipv4: [192, 5, 5, 241],
            ipv6: [0x2001, 0x500, 0x2f, 0, 0, 0, 0, 0xf],
        },
        ServerInfo {
            name: "g.root-servers.net",
            operator: "US Department of Defense (NIC)",
            ipv4: [192, 112, 36, 4],
            ipv6: [0x2001, 0x500, 0x12, 0, 0, 0, 0, 0xd0d],
        },
        ServerInfo {
            name: "h.root-servers.net",
            operator: "US Army (Research Lab)",
            ipv4: [198, 97, 190, 53],
            ipv6: [0x2001, 0x500, 1, 0, 0, 0, 0, 0x53],
        },
        ServerInfo {
            name: "i.root-servers.net",
            operator: "Netnod",
            ipv4: [192, 36, 148, 17],
            ipv6: [0x2001, 0x7fe, 0, 0, 0, 0, 0, 0x53],
        },
        ServerInfo {
            name: "j.root-servers.net",
            operator: "Verisign, Inc.",
            ipv4: [192, 58, 128, 30],
            ipv6: [0x2001, 0x503, 0xc27, 0, 0, 0, 2, 0x30],
        },
        ServerInfo {
            name: "k.root-servers.net",
            operator: "RIPE NCC",
            ipv4: [193, 0, 14, 129],
            ipv6: [0x2001, 0x7fd, 0, 0, 0, 0, 0, 1],
        },
        ServerInfo {
            name: "l.root-servers.net",
            operator: "ICANN",
            ipv4: [199, 7, 83, 42],
            ipv6: [0x2001, 0x500, 0x9f, 0, 0, 0, 0, 0x42],
        },
        ServerInfo {
            name: "m.root-servers.net",
            operator: "WIDE Project",
            ipv4: [202, 12, 27, 33],
            ipv6: [0x2001, 0xdc3, 0, 0, 0, 0, 0, 0x35],
        },
    ]
}

/// The root name servers, from a to m.
pub fn root_servers() -> (res: Vec<ServerInfo>)
    ensures
        res@ == root_server_list(),
{
    let mut servers: Vec<ServerInfo> = Vec::new();
    servers.push(ServerInfo {
        name: "a.root-servers.net",
        operator: "Verisign, Inc.",
        ipv4: [198, 41, 0, 4],
        ipv6: [0x2001, 0x503, 0xba3e, 0, 0, 0, 2, 0x30],
    });
    servers.push(ServerInfo {
        name: "b.root-servers.net",
        operator: "University of Southern California, Information Sciences Institute",
        ipv4: [170, 247, 170, 2],
        ipv6: [0x2801, 0x1b8, 0x10, 0, 0, 0, 0, 0xc],
    });
    servers.push(ServerInfo {
        name: "c.root-servers.net",
        operator: "Cogent Communications",
        ipv4: [192, 33, 4, 12],
        ipv6: [0x2001, 0x500, 2, 0, 0, 0, 0, 0xc],
    });
    servers.push(ServerInfo {
        name: "d.root-servers.net",
        operator: "University of Maryland",
        ipv4: [199, 7, 91, 13],
        ipv6: [0x2001, 0x500, 0x2d, 0, 0, 0, 0, 0xd],
    });
    servers.push(ServerInfo {
        name: "e.root-servers.net",
        operator: "NASA (Ames Research Center)",
        ipv4: [192, 203, 230, 10],
        ipv6: [0x2001, 0x500, 0xa8, 0, 0, 0, 0, 0xe],
    });
    servers.push(ServerInfo {
        name: "f.root-servers.net",
        operator: "Internet Systems Consortium, Inc.",
        ipv4: [192, 5, 5, 241],
        ipv6: [0x2001, 0x500, 0x2f, 0, 0, 0, 0, 0xf],
    });
    servers.push(ServerInfo {
        name: "g.root-servers.net",
        operator: "US Department of Defense (NIC)",
        ipv4: [192, 112, 36, 4],
        ipv6: [0x2001, 0x500, 0x12, 0, 0, 0, 0, 0xd0d],
    });
    servers.push(ServerInfo {
        name: "h.root-servers.net",
        operator: "US Army (Research Lab)",
        ipv4: [198, 97, 190, 53],
        ipv6: [0x2001, 0x500, 1, 0, 0, 0, 0, 0x53],
    });
    servers.push(ServerInfo {
        name: "i.root-servers.net",
        operator: "Netnod",
        ipv4: [192, 36, 148, 17],
        ipv6: [0x2001, 0x7fe, 0, 0, 0, 0, 0, 0x53],
    });
    servers.push(ServerInfo {
        name: "j.root-servers.net",
        operator: "Verisign, Inc.",
        ipv4: [192, 58, 128, 30],
        ipv6: [0x2001, 0x503, 0xc27, 0, 0, 0, 2, 0x30],
    });
    servers.push(ServerInfo {
        name: "k.root-servers.net",
        operator: "RIPE NCC",
        ipv4: [193, 0, 14, 129],
        ipv6: [0x2001, 0x7fd, 0, 0, 0, 0, 0, 1],
    });
    servers.push(ServerInfo {
        name: "l.root-servers.net",
        operator: "ICANN",
        ipv4: [199, 7, 83, 42],
        ipv6: [0x2001, 0x500, 0x9f, 0, 0, 0, 0, 0x42],
    });
    servers.push(ServerInfo {
        name: "m.root-servers.net",
        operator: "WIDE Project",
        ipv4: [202, 12, 27, 33],
        ipv6: [0x2001, 0xdc3, 0, 0, 0, 0, 0, 0x35],
    });
    assert(servers@ =~= root_server_list());
    servers
}

/// One of the root name servers, picked at random.
pub fn random_root_server() -> (res: ServerInfo)
    ensures
        root_server_list().contains(res),
{
    let servers = root_servers();
    match choose_server(servers.as_slice()) {
        Some(server) => {
            assert(root_server_list().contains(*server));
            *server
        },
        None => {
            assert(false);
            servers[0]
        },
    }
}

/// Calls `IndexedRandom::choose` of rand with the thread-local generator
/// `rand::rng()`. Trusted: it picks nothing exactly from an empty list, and
/// else one of the servers of the list; which one is left to chance.
#[verifier::external_body]
fn choose_server(servers: &[ServerInfo]) -> (res: Option<&ServerInfo>)
    ensures
        res is None <==> servers@.len() == 0,
        res matches Some(s) ==> exists|i: int| 0 <= i < servers@.len() && *s == servers@[i],
{
    servers.choose(&mut rand::rng())
}

} // verus!
