//! The codec traits every DNS entity shares: a wire codec and a text
//! parser. The inherent methods of each type carry the exact contracts;
//! these traits give the shared shape.

use vstd::prelude::*;

use crate::dnserror::DnsError;
use crate::dnslabel::Label;
use crate::dnsname::Name;
use crate::dnsquestion::QuestionType;

verus! {

/// A wire codec: append the encoding to a buffer, or read a value from
/// the head of one.
pub trait AsBytes: Sized {
    /// When the value is fit to encode; constructors only ever hand out
    /// fit values.
    spec fn bytes_wf(&self) -> bool;

    /// Appends the wire form and reports how many bytes that took.
    fn to_bytes(&self, target: &mut Vec<u8>) -> Result<usize, DnsError>
        requires
            self.bytes_wf(),
    ;

    /// Reads a value from the head of a wire buffer.
    fn from_bytes(bytes: &[u8]) -> Result<Self, DnsError>;
}

/// A text parser.
pub trait AsStr: Sized {
    /// Parses a value from its textual form.
    fn from_str(s: &str) -> Result<Self, DnsError>;
}

/// A DNS entity: it has both the wire codec and the text parser.
pub trait DnsEntity: AsBytes + AsStr {

}

impl AsBytes for Label {
    open spec fn bytes_wf(&self) -> bool {
        self.wf()
    }

    fn to_bytes(&self, target: &mut Vec<u8>) -> Result<usize, DnsError> {
        Label::to_bytes(self, target)
    }

    fn from_bytes(bytes: &[u8]) -> Result<Label, DnsError> {
        Label::from_bytes(bytes)
    }
}

impl AsStr for Label {
    fn from_str(s: &str) -> Result<Label, DnsError> {
        Label::from_str(s)
    }
}

impl DnsEntity for Label {

}

impl AsBytes for Name {
    open spec fn bytes_wf(&self) -> bool {
        self.wf()
    }

    fn to_bytes(&self, target: &mut Vec<u8>) -> Result<usize, DnsError> {
        Name::to_bytes(self, target)
    }

    fn from_bytes(bytes: &[u8]) -> Result<Name, DnsError> {
        Name::from_bytes(bytes)
    }
}

impl AsStr for Name {
    fn from_str(s: &str) -> Result<Name, DnsError> {
        Name::from_str(s)
    }
}

impl DnsEntity for Name {

}

impl AsBytes for QuestionType {
    open spec fn bytes_wf(&self) -> bool {
        true
    }

    fn to_bytes(&self, target: &mut Vec<u8>) -> Result<usize, DnsError> {
        QuestionType::to_bytes(self, target)
    }

    fn from_bytes(bytes: &[u8]) -> Result<QuestionType, DnsError> {
        QuestionType::from_bytes(bytes)
    }
}

impl AsStr for QuestionType {
    fn from_str(s: &str) -> Result<QuestionType, DnsError> {
        QuestionType::from_str(s)
    }
}

impl DnsEntity for QuestionType {

}

} // verus!
