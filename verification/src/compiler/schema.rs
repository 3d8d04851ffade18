//! The known configuration schemas: how an override patches each known field,
//! and the order in which the fields of each schema are written out.
use crate::model::{FieldBehavior, ListStyle, SchemaId};
use crate::text::str_eq;
use vstd::prelude::*;

verus! {

/// Whether `key` is one of `options`.
pub fn key_in(key: &str, options: &[&str]) -> (r: bool)
    ensures
        r == options@.map_values(|o: &str| o@).contains(key@),
{
    let mut i: usize = 0;
    while i < options.len()
        invariant
            0 <= i <= options@.len(),
            forall|j: int| 0 <= j < i ==> options@[j]@ != key@,
        decreases options.len() - i,
    {
        if str_eq(options[i], key) {
            assert(options@.map_values(|o: &str| o@)[i as int] == key@);
            return true;
        }
        i = i + 1;
    }
    proof {
        let m = options@.map_values(|o: &str| o@);
        if m.contains(key@) {
            let j = choose|j: int| 0 <= j < m.len() && m[j] == key@;
            assert(options@[j]@ == key@);
        }
    }
    false
}

pub open spec fn root_scalar_fields() -> Seq<Seq<char>> {
    seq![
        "port"@,
        "socks-port"@,
        "mixed-port"@,
        "redir-port"@,
        "tproxy-port"@,
        "allow-lan"@,
        "bind-address"@,
        "mode"@,
        "log-level"@,
        "ipv6"@,
        "external-controller"@,
        "external-controller-tls"@,
        "external-doh-server"@,
        "secret"@,
        "unified-delay"@,
        "geodata-mode"@,
        "tcp-concurrent"@,
        "find-process-mode"@,
        "keep-alive-interval"@,
        "keep-alive-idle"@,
        "interface-name"@,
        "routing-mark"@,
        "geosite-matcher"@,
        "global-client-fingerprint"@,
        "geo-auto-update"@,
        "geo-update-interval"@,
    ]
}

pub open spec fn root_plain_list_fields() -> Seq<Seq<char>> {
    seq![
        "authentication"@,
        "skip-auth-prefixes"@,
        "lan-allowed-ips"@,
        "lan-disallowed-ips"@,
    ]
}

pub open spec fn root_mapping_fields() -> Seq<Seq<char>> {
    seq![
        "hosts"@,
        "rule-providers"@,
        "proxy-providers"@,
        "sub-rules"@,
    ]
}

pub open spec fn root_named_list_fields() -> Seq<Seq<char>> {
    seq![
        "proxies"@,
        "proxy-groups"@,
    ]
}

pub open spec fn dns_scalar_fields() -> Seq<Seq<char>> {
    seq![
        "enable"@,
        "cache-algorithm"@,
        "prefer-h3"@,
        "listen"@,
        "ipv6"@,
        "use-hosts"@,
        "use-system-hosts"@,
        "respect-rules"@,
        "enhanced-mode"@,
        "fake-ip-range"@,
        "fake-ip-range6"@,
        "fake-ip-filter-mode"@,
        "fake-ip-ttl"@,
        "ipv6-timeout"@,
        "cache-max-size"@,
        "direct-nameserver-follow-policy"@,
    ]
}

pub open spec fn dns_plain_list_fields() -> Seq<Seq<char>> {
    seq![
        "nameserver"@,
        "fallback"@,
        "default-nameserver"@,
        "proxy-server-nameserver"@,
        "direct-nameserver"@,
        "fake-ip-filter"@,
    ]
}

pub open spec fn dns_mapping_fields() -> Seq<Seq<char>> {
    seq![
        "nameserver-policy"@,
        "proxy-server-nameserver-policy"@,
    ]
}

pub open spec fn dns_fallback_filter_scalar_fields() -> Seq<Seq<char>> {
    seq![
        "geoip"@,
        "geoip-code"@,
    ]
}

pub open spec fn dns_fallback_filter_plain_list_fields() -> Seq<Seq<char>> {
    seq![
        "domain"@,
        "ipcidr"@,
        "geosite"@,
    ]
}

pub open spec fn sniffer_scalar_fields() -> Seq<Seq<char>> {
    seq![
        "enable"@,
        "force-dns-mapping"@,
        "parse-pure-ip"@,
        "override-destination"@,
    ]
}

pub open spec fn sniffer_plain_list_fields() -> Seq<Seq<char>> {
    seq![
        "force-domain"@,
        "skip-domain"@,
        "skip-src-address"@,
        "skip-dst-address"@,
    ]
}

pub open spec fn sniff_protocol_object_fields() -> Seq<Seq<char>> {
    seq![
        "HTTP"@,
        "TLS"@,
        "QUIC"@,
    ]
}

pub open spec fn tun_scalar_fields() -> Seq<Seq<char>> {
    seq![
        "enable"@,
        "stack"@,
        "auto-route"@,
        "auto-detect-interface"@,
        "auto-redirect"@,
        "mtu"@,
        "gso"@,
        "gso-max-size"@,
        "strict-route"@,
        "disable-icmp-forwarding"@,
        "endpoint-independent-nat"@,
    ]
}

pub open spec fn tun_plain_list_fields() -> Seq<Seq<char>> {
    seq![
        "dns-hijack"@,
        "route-address"@,
        "route-exclude-address"@,
        "include-package"@,
        "exclude-package"@,
    ]
}

pub open spec fn profile_scalar_fields() -> Seq<Seq<char>> {
    seq![
        "store-selected"@,
        "store-fake-ip"@,
    ]
}

pub open spec fn geox_url_scalar_fields() -> Seq<Seq<char>> {
    seq![
        "geoip"@,
        "mmdb"@,
        "geosite"@,
    ]
}

/// The behaviour of field `key` in `schema`, if the schema knows it.
pub open spec fn field_behavior_spec(schema: SchemaId, key: Seq<char>) -> Option<FieldBehavior> {
    match schema {
        SchemaId::Root => if root_scalar_fields().contains(key) {
            Some(FieldBehavior::Scalar)
        } else if root_plain_list_fields().contains(key) {
            Some(FieldBehavior::List(ListStyle::Plain))
        } else if root_mapping_fields().contains(key) {
            Some(FieldBehavior::Mapping)
        } else if root_named_list_fields().contains(key) {
            Some(FieldBehavior::List(ListStyle::NamedObjects))
        } else if key == "rules"@ {
            Some(FieldBehavior::Rules)
        } else if key == "dns"@ {
            Some(FieldBehavior::Object(SchemaId::Dns))
        } else if key == "external-controller-cors"@ {
            Some(FieldBehavior::Object(SchemaId::ExternalControllerCors))
        } else if key == "profile"@ {
            Some(FieldBehavior::Object(SchemaId::Profile))
        } else if key == "tun"@ {
            Some(FieldBehavior::Object(SchemaId::Tun))
        } else if key == "sniffer"@ {
            Some(FieldBehavior::Object(SchemaId::Sniffer))
        } else if key == "geox-url"@ {
            Some(FieldBehavior::Object(SchemaId::GeoxUrl))
        } else if key == "clash-for-android"@ {
            Some(FieldBehavior::Object(SchemaId::App))
        } else {
            None
        },
        SchemaId::Dns => if dns_scalar_fields().contains(key) {
            Some(FieldBehavior::Scalar)
        } else if dns_plain_list_fields().contains(key) {
            Some(FieldBehavior::List(ListStyle::Plain))
        } else if dns_mapping_fields().contains(key) {
            Some(FieldBehavior::Mapping)
        } else if key == "fallback-filter"@ {
            Some(FieldBehavior::Object(SchemaId::DnsFallbackFilter))
        } else {
            None
        },
        SchemaId::DnsFallbackFilter => if dns_fallback_filter_scalar_fields().contains(key) {
            Some(FieldBehavior::Scalar)
        } else if dns_fallback_filter_plain_list_fields().contains(key) {
            Some(FieldBehavior::List(ListStyle::Plain))
        } else {
            None
        },
        SchemaId::Sniffer => if sniffer_scalar_fields().contains(key) {
            Some(FieldBehavior::Scalar)
        } else if sniffer_plain_list_fields().contains(key) {
            Some(FieldBehavior::List(ListStyle::Plain))
        } else if key == "sniff"@ {
            Some(FieldBehavior::Object(SchemaId::Sniff))
        } else {
            None
        },
        SchemaId::Sniff => if sniff_protocol_object_fields().contains(key) {
            Some(FieldBehavior::Object(SchemaId::Protocol))
        } else {
            None
        },
        SchemaId::Protocol => if key == "ports"@ {
            Some(FieldBehavior::List(ListStyle::Plain))
        } else if key == "override-destination"@ {
            Some(FieldBehavior::Scalar)
        } else {
            None
        },
        SchemaId::Tun => if tun_scalar_fields().contains(key) {
            Some(FieldBehavior::Scalar)
        } else if tun_plain_list_fields().contains(key) {
            Some(FieldBehavior::List(ListStyle::Plain))
        } else {
            None
        },
        SchemaId::ExternalControllerCors => if key == "allow-origins"@ {
            Some(FieldBehavior::List(ListStyle::Plain))
        } else if key == "allow-private-network"@ {
            Some(FieldBehavior::Scalar)
        } else {
            None
        },
        SchemaId::Profile => if profile_scalar_fields().contains(key) {
            Some(FieldBehavior::Scalar)
        } else {
            None
        },
        SchemaId::GeoxUrl => if geox_url_scalar_fields().contains(key) {
            Some(FieldBehavior::Scalar)
        } else {
            None
        },
        SchemaId::App => if key == "append-system-dns"@ {
            Some(FieldBehavior::Scalar)
        } else {
            None
        },
        SchemaId::ProxyItem | SchemaId::ProxyGroupItem | SchemaId::ProviderItem => None,
    }
}

/// How an override patches field `key` of `schema`.
pub fn field_behavior(schema: SchemaId, key: &str) -> (r: Option<FieldBehavior>)
    ensures
        r == field_behavior_spec(schema, key@),
{
    match schema {
        SchemaId::Root => {
            assert(seq![
                "port",
                "socks-port",
                "mixed-port",
                "redir-port",
                "tproxy-port",
                "allow-lan",
                "bind-address",
                "mode",
                "log-level",
                "ipv6",
                "external-controller",
                "external-controller-tls",
                "external-doh-server",
                "secret",
                "unified-delay",
                "geodata-mode",
                "tcp-concurrent",
                "find-process-mode",
                "keep-alive-interval",
                "keep-alive-idle",
                "interface-name",
                "routing-mark",
                "geosite-matcher",
                "global-client-fingerprint",
                "geo-auto-update",
                "geo-update-interval",
            ].map_values(|o: &str| o@) =~= root_scalar_fields());
            if key_in(
                key,
                &[
                    "port",
                    "socks-port",
                    "mixed-port",
                    "redir-port",
                    "tproxy-port",
                    "allow-lan",
                    "bind-address",
                    "mode",
                    "log-level",
                    "ipv6",
                    "external-controller",
                    "external-controller-tls",
                    "external-doh-server",
                    "secret",
                    "unified-delay",
                    "geodata-mode",
                    "tcp-concurrent",
                    "find-process-mode",
                    "keep-alive-interval",
                    "keep-alive-idle",
                    "interface-name",
                    "routing-mark",
                    "geosite-matcher",
                    "global-client-fingerprint",
                    "geo-auto-update",
                    "geo-update-interval",
                ],
            ) {
                return Some(FieldBehavior::Scalar);
            }
            assert(seq![
                "authentication",
                "skip-auth-prefixes",
                "lan-allowed-ips",
                "lan-disallowed-ips",
            ].map_values(|o: &str| o@) =~= root_plain_list_fields());
            if key_in(
                key,
                &[
                    "authentication",
                    "skip-auth-prefixes",
                    "lan-allowed-ips",
                    "lan-disallowed-ips",
                ],
            ) {
                return Some(FieldBehavior::List(ListStyle::Plain));
            }
            assert(seq![
                "hosts",
                "rule-providers",
                "proxy-providers",
                "sub-rules",
            ].map_values(|o: &str| o@) =~= root_mapping_fields());
            if key_in(
                key,
                &[
                    "hosts",
                    "rule-providers",
                    "proxy-providers",
                    "sub-rules",
                ],
            ) {
                return Some(FieldBehavior::Mapping);
            }
            assert(seq![
                "proxies",
                "proxy-groups",
            ].map_values(|o: &str| o@) =~= root_named_list_fields());
            if key_in(
                key,
                &[
                    "proxies",
                    "proxy-groups",
                ],
            ) {
                return Some(FieldBehavior::List(ListStyle::NamedObjects));
            }
            if str_eq(key, "rules") {
                return Some(FieldBehavior::Rules);
            }
            if str_eq(key, "dns") {
                return Some(FieldBehavior::Object(SchemaId::Dns));
            }
            if str_eq(key, "external-controller-cors") {
                return Some(FieldBehavior::Object(SchemaId::ExternalControllerCors));
            }
            if str_eq(key, "profile") {
                return Some(FieldBehavior::Object(SchemaId::Profile));
            }
            if str_eq(key, "tun") {
                return Some(FieldBehavior::Object(SchemaId::Tun));
            }
            if str_eq(key, "sniffer") {
                return Some(FieldBehavior::Object(SchemaId::Sniffer));
            }
            if str_eq(key, "geox-url") {
                return Some(FieldBehavior::Object(SchemaId::GeoxUrl));
            }
            if str_eq(key, "clash-for-android") {
                return Some(FieldBehavior::Object(SchemaId::App));
            }
            None
        },
        SchemaId::Dns => {
            assert(seq![
                "enable",
                "cache-algorithm",
                "prefer-h3",
                "listen",
                "ipv6",
                "use-hosts",
                "use-system-hosts",
                "respect-rules",
                "enhanced-mode",
                "fake-ip-range",
                "fake-ip-range6",
                "fake-ip-filter-mode",
                "fake-ip-ttl",
                "ipv6-timeout",
                "cache-max-size",
                "direct-nameserver-follow-policy",
            ].map_values(|o: &str| o@) =~= dns_scalar_fields());
            if key_in(
                key,
                &[
                    "enable",
                    "cache-algorithm",
                    "prefer-h3",
                    "listen",
                    "ipv6",
                    "use-hosts",
                    "use-system-hosts",
                    "respect-rules",
                    "enhanced-mode",
                    "fake-ip-range",
                    "fake-ip-range6",
                    "fake-ip-filter-mode",
                    "fake-ip-ttl",
                    "ipv6-timeout",
                    "cache-max-size",
                    "direct-nameserver-follow-policy",
                ],
            ) {
                return Some(FieldBehavior::Scalar);
            }
            assert(seq![
                "nameserver",
                "fallback",
                "default-nameserver",
                "proxy-server-nameserver",
                "direct-nameserver",
                "fake-ip-filter",
            ].map_values(|o: &str| o@) =~= dns_plain_list_fields());
            if key_in(
                key,
                &[
                    "nameserver",
                    "fallback",
                    "default-nameserver",
                    "proxy-server-nameserver",
                    "direct-nameserver",
                    "fake-ip-filter",
                ],
            ) {
                return Some(FieldBehavior::List(ListStyle::Plain));
            }
            assert(seq![
                "nameserver-policy",
                "proxy-server-nameserver-policy",
            ].map_values(|o: &str| o@) =~= dns_mapping_fields());
            if key_in(
                key,
                &[
                    "nameserver-policy",
                    "proxy-server-nameserver-policy",
                ],
            ) {
                return Some(FieldBehavior::Mapping);
            }
            if str_eq(key, "fallback-filter") {
                return Some(FieldBehavior::Object(SchemaId::DnsFallbackFilter));
            }
            None
        },
        SchemaId::DnsFallbackFilter => {
            assert(seq![
                "geoip",
                "geoip-code",
            ].map_values(|o: &str| o@) =~= dns_fallback_filter_scalar_fields());
            if key_in(
                key,
                &[
                    "geoip",
                    "geoip-code",
                ],
            ) {
                return Some(FieldBehavior::Scalar);
            }
            assert(seq![
                "domain",
                "ipcidr",
                "geosite",
            ].map_values(|o: &str| o@) =~= dns_fallback_filter_plain_list_fields());
            if key_in(
                key,
                &[
                    "domain",
                    "ipcidr",
                    "geosite",
                ],
            ) {
                return Some(FieldBehavior::List(ListStyle::Plain));
            }
            None
        },
        SchemaId::Sniffer => {
            assert(seq![
                "enable",
                "force-dns-mapping",
                "parse-pure-ip",
                "override-destination",
            ].map_values(|o: &str| o@) =~= sniffer_scalar_fields());
            if key_in(
                key,
                &[
                    "enable",
                    "force-dns-mapping",
                    "parse-pure-ip",
                    "override-destination",
                ],
            ) {
                return Some(FieldBehavior::Scalar);
            }
            assert(seq![
                "force-domain",
                "skip-domain",
                "skip-src-address",
                "skip-dst-address",
            ].map_values(|o: &str| o@) =~= sniffer_plain_list_fields());
            if key_in(
                key,
                &[
                    "force-domain",
                    "skip-domain",
                    "skip-src-address",
                    "skip-dst-address",
                ],
            ) {
                return Some(FieldBehavior::List(ListStyle::Plain));
            }
            if str_eq(key, "sniff") {
                return Some(FieldBehavior::Object(SchemaId::Sniff));
            }
            None
        },
        SchemaId::Sniff => {
            assert(seq![
                "HTTP",
                "TLS",
                "QUIC",
            ].map_values(|o: &str| o@) =~= sniff_protocol_object_fields());
            if key_in(
                key,
                &[
                    "HTTP",
                    "TLS",
                    "QUIC",
                ],
            ) {
                return Some(FieldBehavior::Object(SchemaId::Protocol));
            }
            None
        },
        SchemaId::Protocol => {
            if str_eq(key, "ports") {
                return Some(FieldBehavior::List(ListStyle::Plain));
            }
            if str_eq(key, "override-destination") {
                return Some(FieldBehavior::Scalar);
            }
            None
        },
        SchemaId::Tun => {
            assert(seq![
                "enable",
                "stack",
                "auto-route",
                "auto-detect-interface",
                "auto-redirect",
                "mtu",
                "gso",
                "gso-max-size",
                "strict-route",
                "disable-icmp-forwarding",
                "endpoint-independent-nat",
            ].map_values(|o: &str| o@) =~= tun_scalar_fields());
            if key_in(
                key,
                &[
                    "enable",
                    "stack",
                    "auto-route",
                    "auto-detect-interface",
                    "auto-redirect",
                    "mtu",
                    "gso",
                    "gso-max-size",
                    "strict-route",
                    "disable-icmp-forwarding",
                    "endpoint-independent-nat",
                ],
            ) {
                return Some(FieldBehavior::Scalar);
            }
            assert(seq![
                "dns-hijack",
                "route-address",
                "route-exclude-address",
                "include-package",
                "exclude-package",
            ].map_values(|o: &str| o@) =~= tun_plain_list_fields());
            if key_in(
                key,
                &[
                    "dns-hijack",
                    "route-address",
                    "route-exclude-address",
                    "include-package",
                    "exclude-package",
                ],
            ) {
                return Some(FieldBehavior::List(ListStyle::Plain));
            }
            None
        },
        SchemaId::ExternalControllerCors => {
            if str_eq(key, "allow-origins") {
                return Some(FieldBehavior::List(ListStyle::Plain));
            }
            if str_eq(key, "allow-private-network") {
                return Some(FieldBehavior::Scalar);
            }
            None
        },
        SchemaId::Profile => {
            assert(seq![
                "store-selected",
                "store-fake-ip",
            ].map_values(|o: &str| o@) =~= profile_scalar_fields());
            if key_in(
                key,
                &[
                    "store-selected",
                    "store-fake-ip",
                ],
            ) {
                return Some(FieldBehavior::Scalar);
            }
            None
        },
        SchemaId::GeoxUrl => {
            assert(seq![
                "geoip",
                "mmdb",
                "geosite",
            ].map_values(|o: &str| o@) =~= geox_url_scalar_fields());
            if key_in(
                key,
                &[
                    "geoip",
                    "mmdb",
                    "geosite",
                ],
            ) {
                return Some(FieldBehavior::Scalar);
            }
            None
        },
        SchemaId::App => {
            if str_eq(key, "append-system-dns") {
                return Some(FieldBehavior::Scalar);
            }
            None
        },
        SchemaId::ProxyItem | SchemaId::ProxyGroupItem | SchemaId::ProviderItem => None,
    }
}

/// The order in which the known fields of `schema` are written.
pub open spec fn ordered_keys_spec(schema: SchemaId) -> Seq<Seq<char>> {
    match schema {
        SchemaId::Root => seq![
            "mode"@,
            "log-level"@,
            "ipv6"@,
            "find-process-mode"@,
            "keep-alive-interval"@,
            "keep-alive-idle"@,
            "unified-delay"@,
            "tcp-concurrent"@,
            "geodata-mode"@,
            "allow-lan"@,
            "bind-address"@,
            "lan-allowed-ips"@,
            "lan-disallowed-ips"@,
            "authentication"@,
            "skip-auth-prefixes"@,
            "external-controller"@,
            "external-controller-tls"@,
            "external-doh-server"@,
            "secret"@,
            "external-controller-cors"@,
            "profile"@,
            "interface-name"@,
            "routing-mark"@,
            "geosite-matcher"@,
            "global-client-fingerprint"@,
            "geo-auto-update"@,
            "geo-update-interval"@,
            "geox-url"@,
            "dns"@,
            "clash-for-android"@,
            "hosts"@,
            "sniffer"@,
            "port"@,
            "socks-port"@,
            "mixed-port"@,
            "redir-port"@,
            "tproxy-port"@,
            "tun"@,
            "proxies"@,
            "proxy-providers"@,
            "proxy-groups"@,
            "rules"@,
            "rule-providers"@,
            "sub-rules"@,
        ],
        SchemaId::Dns => seq![
            "enable"@,
            "cache-algorithm"@,
            "prefer-h3"@,
            "listen"@,
            "ipv6"@,
            "use-hosts"@,
            "use-system-hosts"@,
            "respect-rules"@,
            "enhanced-mode"@,
            "fake-ip-range"@,
            "fake-ip-range6"@,
            "fake-ip-filter-mode"@,
            "fake-ip-ttl"@,
            "ipv6-timeout"@,
            "cache-max-size"@,
            "direct-nameserver-follow-policy"@,
            "default-nameserver"@,
            "nameserver"@,
            "fallback"@,
            "proxy-server-nameserver"@,
            "direct-nameserver"@,
            "nameserver-policy"@,
            "proxy-server-nameserver-policy"@,
            "fake-ip-filter"@,
            "fallback-filter"@,
        ],
        SchemaId::DnsFallbackFilter => seq![
            "geoip"@,
            "geoip-code"@,
            "domain"@,
            "ipcidr"@,
            "geosite"@,
        ],
        SchemaId::Sniffer => seq![
            "enable"@,
            "force-dns-mapping"@,
            "parse-pure-ip"@,
            "override-destination"@,
            "sniff"@,
            "force-domain"@,
            "skip-domain"@,
            "skip-src-address"@,
            "skip-dst-address"@,
        ],
        SchemaId::Sniff => seq![
            "HTTP"@,
            "TLS"@,
            "QUIC"@,
        ],
        SchemaId::Protocol => seq![
            "ports"@,
            "override-destination"@,
        ],
        SchemaId::Tun => seq![
            "enable"@,
            "stack"@,
            "auto-route"@,
            "auto-redirect"@,
            "auto-detect-interface"@,
            "strict-route"@,
            "endpoint-independent-nat"@,
            "mtu"@,
            "gso"@,
            "gso-max-size"@,
            "disable-icmp-forwarding"@,
            "dns-hijack"@,
            "route-address"@,
            "route-exclude-address"@,
            "include-package"@,
            "exclude-package"@,
        ],
        SchemaId::ExternalControllerCors => seq![
            "allow-origins"@,
            "allow-private-network"@,
        ],
        SchemaId::Profile => seq![
            "store-selected"@,
            "store-fake-ip"@,
        ],
        SchemaId::GeoxUrl => seq![
            "geoip"@,
            "mmdb"@,
            "geosite"@,
        ],
        SchemaId::App => seq![
            "append-system-dns"@,
        ],
        SchemaId::ProxyItem => seq![
            "name"@,
            "type"@,
            "server"@,
            "port"@,
            "ip-version"@,
            "udp"@,
            "interface-name"@,
            "routing-mark"@,
            "tfo"@,
            "mptcp"@,
            "dialer-proxy"@,
        ],
        SchemaId::ProxyGroupItem => seq![
            "name"@,
            "type"@,
            "proxies"@,
            "use"@,
            "url"@,
            "interval"@,
            "lazy"@,
            "timeout"@,
            "max-failed-times"@,
            "disable-udp"@,
            "interface-name"@,
            "routing-mark"@,
            "include-all"@,
            "include-all-proxies"@,
            "include-all-providers"@,
            "filter"@,
            "exclude-filter"@,
            "exclude-type"@,
            "expected-status"@,
            "hidden"@,
            "icon"@,
        ],
        SchemaId::ProviderItem => seq![
            "type"@,
            "url"@,
            "path"@,
            "behavior"@,
            "interval"@,
            "format"@,
            "proxy"@,
            "filter"@,
            "exclude-filter"@,
            "exclude-type"@,
            "size-limit"@,
            "health-check"@,
        ],
    }
}

/// The order in which the known fields of `schema` are written.
pub fn ordered_keys(schema: SchemaId) -> (r: &'static [&'static str])
    ensures
        r@.map_values(|s: &str| s@) == ordered_keys_spec(schema),
{
    match schema {
        SchemaId::Root => {
            let r: &'static [&'static str] = &[
                "mode",
                "log-level",
                "ipv6",
                "find-process-mode",
                "keep-alive-interval",
                "keep-alive-idle",
                "unified-delay",
                "tcp-concurrent",
                "geodata-mode",
                "allow-lan",
                "bind-address",
                "lan-allowed-ips",
                "lan-disallowed-ips",
                "authentication",
                "skip-auth-prefixes",
                "external-controller",
                "external-controller-tls",
                "external-doh-server",
                "secret",
                "external-controller-cors",
                "profile",
                "interface-name",
                "routing-mark",
                "geosite-matcher",
                "global-client-fingerprint",
                "geo-auto-update",
                "geo-update-interval",
                "geox-url",
                "dns",
                "clash-for-android",
                "hosts",
                "sniffer",
                "port",
                "socks-port",
                "mixed-port",
                "redir-port",
                "tproxy-port",
                "tun",
                "proxies",
                "proxy-providers",
                "proxy-groups",
                "rules",
                "rule-providers",
                "sub-rules",
            ];
            assert(r@.map_values(|s: &str| s@) =~= ordered_keys_spec(schema));
            r
        },
        SchemaId::Dns => {
            let r: &'static [&'static str] = &[
                "enable",
                "cache-algorithm",
                "prefer-h3",
                "listen",
                "ipv6",
                "use-hosts",
                "use-system-hosts",
                "respect-rules",
                "enhanced-mode",
                "fake-ip-range",
                "fake-ip-range6",
                "fake-ip-filter-mode",
                "fake-ip-ttl",
                "ipv6-timeout",
                "cache-max-size",
                "direct-nameserver-follow-policy",
                "default-nameserver",
                "nameserver",
                "fallback",
                "proxy-server-nameserver",
                "direct-nameserver",
                "nameserver-policy",
                "proxy-server-nameserver-policy",
                "fake-ip-filter",
                "fallback-filter",
            ];
            assert(r@.map_values(|s: &str| s@) =~= ordered_keys_spec(schema));
            r
        },
        SchemaId::DnsFallbackFilter => {
            let r: &'static [&'static str] = &[
                "geoip",
                "geoip-code",
                "domain",
                "ipcidr",
                "geosite",
            ];
            assert(r@.map_values(|s: &str| s@) =~= ordered_keys_spec(schema));
            r
        },
        SchemaId::Sniffer => {
            let r: &'static [&'static str] = &[
                "enable",
                "force-dns-mapping",
                "parse-pure-ip",
                "override-destination",
                "sniff",
                "force-domain",
                "skip-domain",
                "skip-src-address",
                "skip-dst-address",
            ];
            assert(r@.map_values(|s: &str| s@) =~= ordered_keys_spec(schema));
            r
        },
        SchemaId::Sniff => {
            let r: &'static [&'static str] = &[
                "HTTP",
                "TLS",
                "QUIC",
            ];
            assert(r@.map_values(|s: &str| s@) =~= ordered_keys_spec(schema));
            r
        },
        SchemaId::Protocol => {
            let r: &'static [&'static str] = &[
                "ports",
                "override-destination",
            ];
            assert(r@.map_values(|s: &str| s@) =~= ordered_keys_spec(schema));
            r
        },
        SchemaId::Tun => {
            let r: &'static [&'static str] = &[
                "enable",
                "stack",
                "auto-route",
                "auto-redirect",
                "auto-detect-interface",
                "strict-route",
                "endpoint-independent-nat",
                "mtu",
                "gso",
                "gso-max-size",
                "disable-icmp-forwarding",
                "dns-hijack",
                "route-address",
                "route-exclude-address",
                "include-package",
                "exclude-package",
            ];
            assert(r@.map_values(|s: &str| s@) =~= ordered_keys_spec(schema));
            r
        },
        SchemaId::ExternalControllerCors => {
            let r: &'static [&'static str] = &[
                "allow-origins",
                "allow-private-network",
            ];
            assert(r@.map_values(|s: &str| s@) =~= ordered_keys_spec(schema));
            r
        },
        SchemaId::Profile => {
            let r: &'static [&'static str] = &[
                "store-selected",
                "store-fake-ip",
            ];
            assert(r@.map_values(|s: &str| s@) =~= ordered_keys_spec(schema));
            r
        },
        SchemaId::GeoxUrl => {
            let r: &'static [&'static str] = &[
                "geoip",
                "mmdb",
                "geosite",
            ];
            assert(r@.map_values(|s: &str| s@) =~= ordered_keys_spec(schema));
            r
        },
        SchemaId::App => {
            let r: &'static [&'static str] = &[
                "append-system-dns",
            ];
            assert(r@.map_values(|s: &str| s@) =~= ordered_keys_spec(schema));
            r
        },
        SchemaId::ProxyItem => {
            let r: &'static [&'static str] = &[
                "name",
                "type",
                "server",
                "port",
                "ip-version",
                "udp",
                "interface-name",
                "routing-mark",
                "tfo",
                "mptcp",
                "dialer-proxy",
            ];
            assert(r@.map_values(|s: &str| s@) =~= ordered_keys_spec(schema));
            r
        },
        SchemaId::ProxyGroupItem => {
            let r: &'static [&'static str] = &[
                "name",
                "type",
                "proxies",
                "use",
                "url",
                "interval",
                "lazy",
                "timeout",
                "max-failed-times",
                "disable-udp",
                "interface-name",
                "routing-mark",
                "include-all",
                "include-all-proxies",
                "include-all-providers",
                "filter",
                "exclude-filter",
                "exclude-type",
                "expected-status",
                "hidden",
                "icon",
            ];
            assert(r@.map_values(|s: &str| s@) =~= ordered_keys_spec(schema));
            r
        },
        SchemaId::ProviderItem => {
            let r: &'static [&'static str] = &[
                "type",
                "url",
                "path",
                "behavior",
                "interval",
                "format",
                "proxy",
                "filter",
                "exclude-filter",
                "exclude-type",
                "size-limit",
                "health-check",
            ];
            assert(r@.map_values(|s: &str| s@) =~= ordered_keys_spec(schema));
            r
        },
    }
}


/// The name servers written into a profile whose DNS is off.
pub open spec fn default_name_servers_spec() -> Seq<Seq<char>> {
    seq![
        "223.5.5.5"@,
        "119.29.29.29"@,
        "8.8.4.4"@,
        "1.0.0.1"@,
    ]
}

pub fn default_name_servers() -> (r: &'static [&'static str])
    ensures
        r@.map_values(|s: &str| s@) == default_name_servers_spec(),
{
    let r: &'static [&'static str] = &[
        "223.5.5.5",
        "119.29.29.29",
        "8.8.4.4",
        "1.0.0.1",
    ];
    assert(r@.map_values(|s: &str| s@) =~= default_name_servers_spec());
    r
}

/// The fake-ip filter written into a profile whose DNS is off.
pub open spec fn default_fake_ip_filter_spec() -> Seq<Seq<char>> {
    seq![
        "+.stun.*.*"@,
        "+.stun.*.*.*"@,
        "+.stun.*.*.*.*"@,
        "+.stun.*.*.*.*.*"@,
        "lens.l.google.com"@,
        "*.n.n.srv.nintendo.net"@,
        "+.stun.playstation.net"@,
        "xbox.*.*.microsoft.com"@,
        "*.*.xboxlive.com"@,
        "*.msftncsi.com"@,
        "*.msftconnecttest.com"@,
        "*.mcdn.bilivideo.cn"@,
        "WORKGROUP"@,
    ]
}

pub fn default_fake_ip_filter() -> (r: &'static [&'static str])
    ensures
        r@.map_values(|s: &str| s@) == default_fake_ip_filter_spec(),
{
    let r: &'static [&'static str] = &[
        "+.stun.*.*",
        "+.stun.*.*.*",
        "+.stun.*.*.*.*",
        "+.stun.*.*.*.*.*",
        "lens.l.google.com",
        "*.n.n.srv.nintendo.net",
        "+.stun.playstation.net",
        "xbox.*.*.microsoft.com",
        "*.*.xboxlive.com",
        "*.msftncsi.com",
        "*.msftconnecttest.com",
        "*.mcdn.bilivideo.cn",
        "WORKGROUP",
    ];
    assert(r@.map_values(|s: &str| s@) =~= default_fake_ip_filter_spec());
    r
}

/// The fake-ip range written into a profile whose DNS is off.
pub fn default_fake_ip_range() -> (r: &'static str)
    ensures
        r@ == "28.0.0.0/8"@,
{
    "28.0.0.0/8"
}


// ---------------------------------------------------------------------------
// Laws of the schema tables
// ---------------------------------------------------------------------------

proof fn lemma_same_keys_root(key: Seq<char>)
    ensures
        field_behavior_spec(SchemaId::Root, key) is Some <==> ordered_keys_spec(SchemaId::Root).contains(key),
{
    let o = ordered_keys_spec(SchemaId::Root);
    assert(o.len() == 44);
    if field_behavior_spec(SchemaId::Root, key) is Some {
        if root_scalar_fields().contains(key) {
            let l = root_scalar_fields();
            let i = choose|i: int| 0 <= i < l.len() && l[i] == key;
            if i == 0 {
                assert(o[32] == l[0]);
            } else if i == 1 {
                assert(o[33] == l[1]);
            } else if i == 2 {
                assert(o[34] == l[2]);
            } else if i == 3 {
                assert(o[35] == l[3]);
            } else if i == 4 {
                assert(o[36] == l[4]);
            } else if i == 5 {
                assert(o[9] == l[5]);
            } else if i == 6 {
                assert(o[10] == l[6]);
            } else if i == 7 {
                assert(o[0] == l[7]);
            } else if i == 8 {
                assert(o[1] == l[8]);
            } else if i == 9 {
                assert(o[2] == l[9]);
            } else if i == 10 {
                assert(o[15] == l[10]);
            } else if i == 11 {
                assert(o[16] == l[11]);
            } else if i == 12 {
                assert(o[17] == l[12]);
            } else if i == 13 {
                assert(o[18] == l[13]);
            } else if i == 14 {
                assert(o[6] == l[14]);
            } else if i == 15 {
                assert(o[8] == l[15]);
            } else if i == 16 {
                assert(o[7] == l[16]);
            } else if i == 17 {
                assert(o[3] == l[17]);
            } else if i == 18 {
                assert(o[4] == l[18]);
            } else if i == 19 {
                assert(o[5] == l[19]);
            } else if i == 20 {
                assert(o[21] == l[20]);
            } else if i == 21 {
                assert(o[22] == l[21]);
            } else if i == 22 {
                assert(o[23] == l[22]);
            } else if i == 23 {
                assert(o[24] == l[23]);
            } else if i == 24 {
                assert(o[25] == l[24]);
            } else if i == 25 {
                assert(o[26] == l[25]);
            }
        } else if root_plain_list_fields().contains(key) {
            let l = root_plain_list_fields();
            let i = choose|i: int| 0 <= i < l.len() && l[i] == key;
            if i == 0 {
                assert(o[13] == l[0]);
            } else if i == 1 {
                assert(o[14] == l[1]);
            } else if i == 2 {
                assert(o[11] == l[2]);
            } else if i == 3 {
                assert(o[12] == l[3]);
            }
        } else if root_mapping_fields().contains(key) {
            let l = root_mapping_fields();
            let i = choose|i: int| 0 <= i < l.len() && l[i] == key;
            if i == 0 {
                assert(o[30] == l[0]);
            } else if i == 1 {
                assert(o[42] == l[1]);
            } else if i == 2 {
                assert(o[39] == l[2]);
            } else if i == 3 {
                assert(o[43] == l[3]);
            }
        } else if root_named_list_fields().contains(key) {
            let l = root_named_list_fields();
            let i = choose|i: int| 0 <= i < l.len() && l[i] == key;
            if i == 0 {
                assert(o[38] == l[0]);
            } else if i == 1 {
                assert(o[40] == l[1]);
            }
        } else if key == "rules"@ {
            assert(o[41] == key);
        } else if key == "dns"@ {
            assert(o[28] == key);
        } else if key == "external-controller-cors"@ {
            assert(o[19] == key);
        } else if key == "profile"@ {
            assert(o[20] == key);
        } else if key == "tun"@ {
            assert(o[37] == key);
        } else if key == "sniffer"@ {
            assert(o[31] == key);
        } else if key == "geox-url"@ {
            assert(o[27] == key);
        } else if key == "clash-for-android"@ {
            assert(o[29] == key);
        }
    }
    if o.contains(key) {
        let j = choose|j: int| 0 <= j < o.len() && o[j] == key;
        if j == 0 {
            assert(root_scalar_fields()[7] == o[0]);
        } else if j == 1 {
            assert(root_scalar_fields()[8] == o[1]);
        } else if j == 2 {
            assert(root_scalar_fields()[9] == o[2]);
        } else if j == 3 {
            assert(root_scalar_fields()[17] == o[3]);
        } else if j == 4 {
            assert(root_scalar_fields()[18] == o[4]);
        } else if j == 5 {
            assert(root_scalar_fields()[19] == o[5]);
        } else if j == 6 {
            assert(root_scalar_fields()[14] == o[6]);
        } else if j == 7 {
            assert(root_scalar_fields()[16] == o[7]);
        } else if j == 8 {
            assert(root_scalar_fields()[15] == o[8]);
        } else if j == 9 {
            assert(root_scalar_fields()[5] == o[9]);
        } else if j == 10 {
            assert(root_scalar_fields()[6] == o[10]);
        } else if j == 11 {
            assert(root_plain_list_fields()[2] == o[11]);
        } else if j == 12 {
            assert(root_plain_list_fields()[3] == o[12]);
        } else if j == 13 {
            assert(root_plain_list_fields()[0] == o[13]);
        } else if j == 14 {
            assert(root_plain_list_fields()[1] == o[14]);
        } else if j == 15 {
            assert(root_scalar_fields()[10] == o[15]);
        } else if j == 16 {
            assert(root_scalar_fields()[11] == o[16]);
        } else if j == 17 {
            assert(root_scalar_fields()[12] == o[17]);
        } else if j == 18 {
            assert(root_scalar_fields()[13] == o[18]);
        } else if j == 19 {
            assert(o[19] == "external-controller-cors"@);
        } else if j == 20 {
            assert(o[20] == "profile"@);
        } else if j == 21 {
            assert(root_scalar_fields()[20] == o[21]);
        } else if j == 22 {
            assert(root_scalar_fields()[21] == o[22]);
        } else if j == 23 {
            assert(root_scalar_fields()[22] == o[23]);
        } else if j == 24 {
            assert(root_scalar_fields()[23] == o[24]);
        } else if j == 25 {
            assert(root_scalar_fields()[24] == o[25]);
        } else if j == 26 {
            assert(root_scalar_fields()[25] == o[26]);
        } else if j == 27 {
            assert(o[27] == "geox-url"@);
        } else if j == 28 {
            assert(o[28] == "dns"@);
        } else if j == 29 {
            assert(o[29] == "clash-for-android"@);
        } else if j == 30 {
            assert(root_mapping_fields()[0] == o[30]);
        } else if j == 31 {
            assert(o[31] == "sniffer"@);
        } else if j == 32 {
            assert(root_scalar_fields()[0] == o[32]);
        } else if j == 33 {
            assert(root_scalar_fields()[1] == o[33]);
        } else if j == 34 {
            assert(root_scalar_fields()[2] == o[34]);
        } else if j == 35 {
            assert(root_scalar_fields()[3] == o[35]);
        } else if j == 36 {
            assert(root_scalar_fields()[4] == o[36]);
        } else if j == 37 {
            assert(o[37] == "tun"@);
        } else if j == 38 {
            assert(root_named_list_fields()[0] == o[38]);
        } else if j == 39 {
            assert(root_mapping_fields()[2] == o[39]);
        } else if j == 40 {
            assert(root_named_list_fields()[1] == o[40]);
        } else if j == 41 {
            assert(o[41] == "rules"@);
        } else if j == 42 {
            assert(root_mapping_fields()[1] == o[42]);
        } else if j == 43 {
            assert(root_mapping_fields()[3] == o[43]);
        }
    }
}

proof fn lemma_same_keys_dns(key: Seq<char>)
    ensures
        field_behavior_spec(SchemaId::Dns, key) is Some <==> ordered_keys_spec(SchemaId::Dns).contains(key),
{
    let o = ordered_keys_spec(SchemaId::Dns);
    assert(o.len() == 25);
    if field_behavior_spec(SchemaId::Dns, key) is Some {
        if dns_scalar_fields().contains(key) {
            let l = dns_scalar_fields();
            let i = choose|i: int| 0 <= i < l.len() && l[i] == key;
            if i == 0 {
                assert(o[0] == l[0]);
            } else if i == 1 {
                assert(o[1] == l[1]);
            } else if i == 2 {
                assert(o[2] == l[2]);
            } else if i == 3 {
                assert(o[3] == l[3]);
            } else if i == 4 {
                assert(o[4] == l[4]);
            } else if i == 5 {
                assert(o[5] == l[5]);
            } else if i == 6 {
                assert(o[6] == l[6]);
            } else if i == 7 {
                assert(o[7] == l[7]);
            } else if i == 8 {
                assert(o[8] == l[8]);
            } else if i == 9 {
                assert(o[9] == l[9]);
            } else if i == 10 {
                assert(o[10] == l[10]);
            } else if i == 11 {
                assert(o[11] == l[11]);
            } else if i == 12 {
                assert(o[12] == l[12]);
            } else if i == 13 {
                assert(o[13] == l[13]);
            } else if i == 14 {
                assert(o[14] == l[14]);
            } else if i == 15 {
                assert(o[15] == l[15]);
            }
        } else if dns_plain_list_fields().contains(key) {
            let l = dns_plain_list_fields();
            let i = choose|i: int| 0 <= i < l.len() && l[i] == key;
            if i == 0 {
                assert(o[17] == l[0]);
            } else if i == 1 {
                assert(o[18] == l[1]);
            } else if i == 2 {
                assert(o[16] == l[2]);
            } else if i == 3 {
                assert(o[19] == l[3]);
            } else if i == 4 {
                assert(o[20] == l[4]);
            } else if i == 5 {
                assert(o[23] == l[5]);
            }
        } else if dns_mapping_fields().contains(key) {
            let l = dns_mapping_fields();
            let i = choose|i: int| 0 <= i < l.len() && l[i] == key;
            if i == 0 {
                assert(o[21] == l[0]);
            } else if i == 1 {
                assert(o[22] == l[1]);
            }
        } else if key == "fallback-filter"@ {
            assert(o[24] == key);
        }
    }
    if o.contains(key) {
        let j = choose|j: int| 0 <= j < o.len() && o[j] == key;
        if j == 0 {
            assert(dns_scalar_fields()[0] == o[0]);
        } else if j == 1 {
            assert(dns_scalar_fields()[1] == o[1]);
        } else if j == 2 {
            assert(dns_scalar_fields()[2] == o[2]);
        } else if j == 3 {
            assert(dns_scalar_fields()[3] == o[3]);
        } else if j == 4 {
            assert(dns_scalar_fields()[4] == o[4]);
        } else if j == 5 {
            assert(dns_scalar_fields()[5] == o[5]);
        } else if j == 6 {
            assert(dns_scalar_fields()[6] == o[6]);
        } else if j == 7 {
            assert(dns_scalar_fields()[7] == o[7]);
        } else if j == 8 {
            assert(dns_scalar_fields()[8] == o[8]);
        } else if j == 9 {
            assert(dns_scalar_fields()[9] == o[9]);
        } else if j == 10 {
            assert(dns_scalar_fields()[10] == o[10]);
        } else if j == 11 {
            assert(dns_scalar_fields()[11] == o[11]);
        } else if j == 12 {
            assert(dns_scalar_fields()[12] == o[12]);
        } else if j == 13 {
            assert(dns_scalar_fields()[13] == o[13]);
        } else if j == 14 {
            assert(dns_scalar_fields()[14] == o[14]);
        } else if j == 15 {
            assert(dns_scalar_fields()[15] == o[15]);
        } else if j == 16 {
            assert(dns_plain_list_fields()[2] == o[16]);
        } else if j == 17 {
            assert(dns_plain_list_fields()[0] == o[17]);
        } else if j == 18 {
            assert(dns_plain_list_fields()[1] == o[18]);
        } else if j == 19 {
            assert(dns_plain_list_fields()[3] == o[19]);
        } else if j == 20 {
            assert(dns_plain_list_fields()[4] == o[20]);
        } else if j == 21 {
            assert(dns_mapping_fields()[0] == o[21]);
        } else if j == 22 {
            assert(dns_mapping_fields()[1] == o[22]);
        } else if j == 23 {
            assert(dns_plain_list_fields()[5] == o[23]);
        } else if j == 24 {
            assert(o[24] == "fallback-filter"@);
        }
    }
}

proof fn lemma_same_keys_dns_fallback_filter(key: Seq<char>)
    ensures
        field_behavior_spec(SchemaId::DnsFallbackFilter, key) is Some <==> ordered_keys_spec(SchemaId::DnsFallbackFilter).contains(key),
{
    let o = ordered_keys_spec(SchemaId::DnsFallbackFilter);
    assert(o.len() == 5);
    if field_behavior_spec(SchemaId::DnsFallbackFilter, key) is Some {
        if dns_fallback_filter_scalar_fields().contains(key) {
            let l = dns_fallback_filter_scalar_fields();
            let i = choose|i: int| 0 <= i < l.len() && l[i] == key;
            if i == 0 {
                assert(o[0] == l[0]);
            } else if i == 1 {
                assert(o[1] == l[1]);
            }
        } else if dns_fallback_filter_plain_list_fields().contains(key) {
            let l = dns_fallback_filter_plain_list_fields();
            let i = choose|i: int| 0 <= i < l.len() && l[i] == key;
            if i == 0 {
                assert(o[2] == l[0]);
            } else if i == 1 {
                assert(o[3] == l[1]);
            } else if i == 2 {
                assert(o[4] == l[2]);
            }
        }
    }
    if o.contains(key) {
        let j = choose|j: int| 0 <= j < o.len() && o[j] == key;
        if j == 0 {
            assert(dns_fallback_filter_scalar_fields()[0] == o[0]);
        } else if j == 1 {
            assert(dns_fallback_filter_scalar_fields()[1] == o[1]);
        } else if j == 2 {
            assert(dns_fallback_filter_plain_list_fields()[0] == o[2]);
        } else if j == 3 {
            assert(dns_fallback_filter_plain_list_fields()[1] == o[3]);
        } else if j == 4 {
            assert(dns_fallback_filter_plain_list_fields()[2] == o[4]);
        }
    }
}

proof fn lemma_same_keys_sniffer(key: Seq<char>)
    ensures
        field_behavior_spec(SchemaId::Sniffer, key) is Some <==> ordered_keys_spec(SchemaId::Sniffer).contains(key),
{
    let o = ordered_keys_spec(SchemaId::Sniffer);
    assert(o.len() == 9);
    if field_behavior_spec(SchemaId::Sniffer, key) is Some {
        if sniffer_scalar_fields().contains(key) {
            let l = sniffer_scalar_fields();
            let i = choose|i: int| 0 <= i < l.len() && l[i] == key;
            if i == 0 {
                assert(o[0] == l[0]);
            } else if i == 1 {
                assert(o[1] == l[1]);
            } else if i == 2 {
                assert(o[2] == l[2]);
            } else if i == 3 {
                assert(o[3] == l[3]);
            }
        } else if sniffer_plain_list_fields().contains(key) {
            let l = sniffer_plain_list_fields();
            let i = choose|i: int| 0 <= i < l.len() && l[i] == key;
            if i == 0 {
                assert(o[5] == l[0]);
            } else if i == 1 {
                assert(o[6] == l[1]);
            } else if i == 2 {
                assert(o[7] == l[2]);
            } else if i == 3 {
                assert(o[8] == l[3]);
            }
        } else if key == "sniff"@ {
            assert(o[4] == key);
        }
    }
    if o.contains(key) {
        let j = choose|j: int| 0 <= j < o.len() && o[j] == key;
        if j == 0 {
            assert(sniffer_scalar_fields()[0] == o[0]);
        } else if j == 1 {
            assert(sniffer_scalar_fields()[1] == o[1]);
        } else if j == 2 {
            assert(sniffer_scalar_fields()[2] == o[2]);
        } else if j == 3 {
            assert(sniffer_scalar_fields()[3] == o[3]);
        } else if j == 4 {
            assert(o[4] == "sniff"@);
        } else if j == 5 {
            assert(sniffer_plain_list_fields()[0] == o[5]);
        } else if j == 6 {
            assert(sniffer_plain_list_fields()[1] == o[6]);
        } else if j == 7 {
            assert(sniffer_plain_list_fields()[2] == o[7]);
        } else if j == 8 {
            assert(sniffer_plain_list_fields()[3] == o[8]);
        }
    }
}

proof fn lemma_same_keys_sniff(key: Seq<char>)
    ensures
        field_behavior_spec(SchemaId::Sniff, key) is Some <==> ordered_keys_spec(SchemaId::Sniff).contains(key),
{
    let o = ordered_keys_spec(SchemaId::Sniff);
    assert(o.len() == 3);
    if field_behavior_spec(SchemaId::Sniff, key) is Some {
        if sniff_protocol_object_fields().contains(key) {
            let l = sniff_protocol_object_fields();
            let i = choose|i: int| 0 <= i < l.len() && l[i] == key;
            if i == 0 {
                assert(o[0] == l[0]);
            } else if i == 1 {
                assert(o[1] == l[1]);
            } else if i == 2 {
                assert(o[2] == l[2]);
            }
        }
    }
    if o.contains(key) {
        let j = choose|j: int| 0 <= j < o.len() && o[j] == key;
        if j == 0 {
            assert(sniff_protocol_object_fields()[0] == o[0]);
        } else if j == 1 {
            assert(sniff_protocol_object_fields()[1] == o[1]);
        } else if j == 2 {
            assert(sniff_protocol_object_fields()[2] == o[2]);
        }
    }
}

proof fn lemma_same_keys_protocol(key: Seq<char>)
    ensures
        field_behavior_spec(SchemaId::Protocol, key) is Some <==> ordered_keys_spec(SchemaId::Protocol).contains(key),
{
    let o = ordered_keys_spec(SchemaId::Protocol);
    assert(o.len() == 2);
    if field_behavior_spec(SchemaId::Protocol, key) is Some {
        if key == "ports"@ {
            assert(o[0] == key);
        } else if key == "override-destination"@ {
            assert(o[1] == key);
        }
    }
    if o.contains(key) {
        let j = choose|j: int| 0 <= j < o.len() && o[j] == key;
        if j == 0 {
            assert(o[0] == "ports"@);
        } else if j == 1 {
            assert(o[1] == "override-destination"@);
        }
    }
}

proof fn lemma_same_keys_tun(key: Seq<char>)
    ensures
        field_behavior_spec(SchemaId::Tun, key) is Some <==> ordered_keys_spec(SchemaId::Tun).contains(key),
{
    let o = ordered_keys_spec(SchemaId::Tun);
    assert(o.len() == 16);
    if field_behavior_spec(SchemaId::Tun, key) is Some {
        if tun_scalar_fields().contains(key) {
            let l = tun_scalar_fields();
            let i = choose|i: int| 0 <= i < l.len() && l[i] == key;
            if i == 0 {
                assert(o[0] == l[0]);
            } else if i == 1 {
                assert(o[1] == l[1]);
            } else if i == 2 {
                assert(o[2] == l[2]);
            } else if i == 3 {
                assert(o[4] == l[3]);
            } else if i == 4 {
                assert(o[3] == l[4]);
            } else if i == 5 {
                assert(o[7] == l[5]);
            } else if i == 6 {
                assert(o[8] == l[6]);
            } else if i == 7 {
                assert(o[9] == l[7]);
            } else if i == 8 {
                assert(o[5] == l[8]);
            } else if i == 9 {
                assert(o[10] == l[9]);
            } else if i == 10 {
                assert(o[6] == l[10]);
            }
        } else if tun_plain_list_fields().contains(key) {
            let l = tun_plain_list_fields();
            let i = choose|i: int| 0 <= i < l.len() && l[i] == key;
            if i == 0 {
                assert(o[11] == l[0]);
            } else if i == 1 {
                assert(o[12] == l[1]);
            } else if i == 2 {
                assert(o[13] == l[2]);
            } else if i == 3 {
                assert(o[14] == l[3]);
            } else if i == 4 {
                assert(o[15] == l[4]);
            }
        }
    }
    if o.contains(key) {
        let j = choose|j: int| 0 <= j < o.len() && o[j] == key;
        if j == 0 {
            assert(tun_scalar_fields()[0] == o[0]);
        } else if j == 1 {
            assert(tun_scalar_fields()[1] == o[1]);
        } else if j == 2 {
            assert(tun_scalar_fields()[2] == o[2]);
        } else if j == 3 {
            assert(tun_scalar_fields()[4] == o[3]);
        } else if j == 4 {
            assert(tun_scalar_fields()[3] == o[4]);
        } else if j == 5 {
            assert(tun_scalar_fields()[8] == o[5]);
        } else if j == 6 {
            assert(tun_scalar_fields()[10] == o[6]);
        } else if j == 7 {
            assert(tun_scalar_fields()[5] == o[7]);
        } else if j == 8 {
            assert(tun_scalar_fields()[6] == o[8]);
        } else if j == 9 {
            assert(tun_scalar_fields()[7] == o[9]);
        } else if j == 10 {
            assert(tun_scalar_fields()[9] == o[10]);
        } else if j == 11 {
            assert(tun_plain_list_fields()[0] == o[11]);
        } else if j == 12 {
            assert(tun_plain_list_fields()[1] == o[12]);
        } else if j == 13 {
            assert(tun_plain_list_fields()[2] == o[13]);
        } else if j == 14 {
            assert(tun_plain_list_fields()[3] == o[14]);
        } else if j == 15 {
            assert(tun_plain_list_fields()[4] == o[15]);
        }
    }
}

proof fn lemma_same_keys_external_controller_cors(key: Seq<char>)
    ensures
        field_behavior_spec(SchemaId::ExternalControllerCors, key) is Some <==> ordered_keys_spec(SchemaId::ExternalControllerCors).contains(key),
{
    let o = ordered_keys_spec(SchemaId::ExternalControllerCors);
    assert(o.len() == 2);
    if field_behavior_spec(SchemaId::ExternalControllerCors, key) is Some {
        if key == "allow-origins"@ {
            assert(o[0] == key);
        } else if key == "allow-private-network"@ {
            assert(o[1] == key);
        }
    }
    if o.contains(key) {
        let j = choose|j: int| 0 <= j < o.len() && o[j] == key;
        if j == 0 {
            assert(o[0] == "allow-origins"@);
        } else if j == 1 {
            assert(o[1] == "allow-private-network"@);
        }
    }
}

proof fn lemma_same_keys_profile(key: Seq<char>)
    ensures
        field_behavior_spec(SchemaId::Profile, key) is Some <==> ordered_keys_spec(SchemaId::Profile).contains(key),
{
    let o = ordered_keys_spec(SchemaId::Profile);
    assert(o.len() == 2);
    if field_behavior_spec(SchemaId::Profile, key) is Some {
        if profile_scalar_fields().contains(key) {
            let l = profile_scalar_fields();
            let i = choose|i: int| 0 <= i < l.len() && l[i] == key;
            if i == 0 {
                assert(o[0] == l[0]);
            } else if i == 1 {
                assert(o[1] == l[1]);
            }
        }
    }
    if o.contains(key) {
        let j = choose|j: int| 0 <= j < o.len() && o[j] == key;
        if j == 0 {
            assert(profile_scalar_fields()[0] == o[0]);
        } else if j == 1 {
            assert(profile_scalar_fields()[1] == o[1]);
        }
    }
}

proof fn lemma_same_keys_geox_url(key: Seq<char>)
    ensures
        field_behavior_spec(SchemaId::GeoxUrl, key) is Some <==> ordered_keys_spec(SchemaId::GeoxUrl).contains(key),
{
    let o = ordered_keys_spec(SchemaId::GeoxUrl);
    assert(o.len() == 3);
    if field_behavior_spec(SchemaId::GeoxUrl, key) is Some {
        if geox_url_scalar_fields().contains(key) {
            let l = geox_url_scalar_fields();
            let i = choose|i: int| 0 <= i < l.len() && l[i] == key;
            if i == 0 {
                assert(o[0] == l[0]);
            } else if i == 1 {
                assert(o[1] == l[1]);
            } else if i == 2 {
                assert(o[2] == l[2]);
            }
        }
    }
    if o.contains(key) {
        let j = choose|j: int| 0 <= j < o.len() && o[j] == key;
        if j == 0 {
            assert(geox_url_scalar_fields()[0] == o[0]);
        } else if j == 1 {
            assert(geox_url_scalar_fields()[1] == o[1]);
        } else if j == 2 {
            assert(geox_url_scalar_fields()[2] == o[2]);
        }
    }
}

proof fn lemma_same_keys_app(key: Seq<char>)
    ensures
        field_behavior_spec(SchemaId::App, key) is Some <==> ordered_keys_spec(SchemaId::App).contains(key),
{
    let o = ordered_keys_spec(SchemaId::App);
    assert(o.len() == 1);
    if field_behavior_spec(SchemaId::App, key) is Some {
        if key == "append-system-dns"@ {
            assert(o[0] == key);
        }
    }
    if o.contains(key) {
        let j = choose|j: int| 0 <= j < o.len() && o[j] == key;
        if j == 0 {
            assert(o[0] == "append-system-dns"@);
        }
    }
}
/// For every object schema, the fields that the behaviour table knows are
/// exactly the keys that the output order lists.
pub proof fn behaviour_and_order_name_the_same_keys(schema: SchemaId, key: Seq<char>)
    requires
        !(schema is ProxyItem || schema is ProxyGroupItem || schema is ProviderItem),
    ensures
        field_behavior_spec(schema, key) is Some <==> ordered_keys_spec(schema).contains(key),
{
    match schema {
        SchemaId::Root => lemma_same_keys_root(key),
        SchemaId::Dns => lemma_same_keys_dns(key),
        SchemaId::DnsFallbackFilter => lemma_same_keys_dns_fallback_filter(key),
        SchemaId::Sniffer => lemma_same_keys_sniffer(key),
        SchemaId::Sniff => lemma_same_keys_sniff(key),
        SchemaId::Protocol => lemma_same_keys_protocol(key),
        SchemaId::Tun => lemma_same_keys_tun(key),
        SchemaId::ExternalControllerCors => lemma_same_keys_external_controller_cors(key),
        SchemaId::Profile => lemma_same_keys_profile(key),
        SchemaId::GeoxUrl => lemma_same_keys_geox_url(key),
        SchemaId::App => lemma_same_keys_app(key),
        _ => {},
    }
}

} // verus!
