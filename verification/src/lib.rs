//! An authoritative DNS name-server core: the binary wire codec for domain
//! names (labels, names, records) and a hierarchical zone trie that maps
//! names to resource records, with insertion, lookup and a textual dump.

pub mod dnserror;
pub mod textbytes;
pub mod dnslabel;
pub mod dnsname;
pub mod dnsrecord;
pub mod zone;
pub mod dnsquestion;
pub mod dnsmessage;
pub mod dnstraits;

pub use crate::dnserror::DnsError;
pub use crate::dnslabel::Label;
pub use crate::dnsname::Name;
pub use crate::dnsrecord::{Ipv4Address, Record};
pub use crate::zone::Zone;
pub use crate::dnsquestion::{Question, QuestionType};
pub use crate::dnsmessage::{calc_dns_string_len, dns_string_from_str, dns_strings_to_bytes, DnsMessage, ResourceRecord};
pub use crate::dnstraits::{AsBytes, AsStr, DnsEntity};
