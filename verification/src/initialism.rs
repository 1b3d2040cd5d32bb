//! The dictionary of initialisms that are written in capitals throughout.

use vstd::prelude::*;
use crate::text::{chars_of, spells};

verus! {

/// The initialisms that are written in capitals throughout, each in small
/// letters.
pub open spec fn common_initialisms() -> Set<Seq<char>> {
    set![
        "acl"@, "api"@, "ascii"@, "cpu"@, "css"@, "dns"@, "eof"@, "guid"@, "html"@, "http"@,
        "https"@, "id"@, "ip"@, "json"@, "lhs"@, "qps"@, "ram"@, "rhs"@, "rpc"@, "sla"@,
        "smtp"@, "sql"@, "ssh"@, "tcp"@, "tls"@, "ttl"@, "udp"@, "ui"@, "uid"@, "uuid"@,
        "uri"@, "url"@, "utf8"@, "vm"@, "xml"@, "xmpp"@, "xsrf"@, "xss"@,
    ]
}

/// Whether `word`, taken whole and as it is written, is one of the common
/// initialisms. A word that only holds one, or differs in case, is none.
pub fn is_initialism(word: &str) -> (b: bool)
    ensures
        b == common_initialisms().contains(word@),
{
    let w = chars_of(word);
    spells(&w, "acl") || spells(&w, "api") || spells(&w, "ascii") || spells(&w, "cpu") || spells(
        &w,
        "css",
    ) || spells(&w, "dns") || spells(&w, "eof") || spells(&w, "guid") || spells(&w, "html")
        || spells(&w, "http") || spells(&w, "https") || spells(&w, "id") || spells(&w, "ip")
        || spells(&w, "json") || spells(&w, "lhs") || spells(&w, "qps") || spells(&w, "ram")
        || spells(&w, "rhs") || spells(&w, "rpc") || spells(&w, "sla") || spells(&w, "smtp")
        || spells(&w, "sql") || spells(&w, "ssh") || spells(&w, "tcp") || spells(&w, "tls")
        || spells(&w, "ttl") || spells(&w, "udp") || spells(&w, "ui") || spells(&w, "uid")
        || spells(&w, "uuid") || spells(&w, "uri") || spells(&w, "url") || spells(&w, "utf8")
        || spells(&w, "vm") || spells(&w, "xml") || spells(&w, "xmpp") || spells(&w, "xsrf")
        || spells(&w, "xss")
}

} // verus!
