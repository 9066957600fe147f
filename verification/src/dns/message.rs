//! A question in its plainest form: a name as text, asked for an address
//! record of the Internet class.

use crate::common::bits::be16;
use crate::common::AsBytes;
use crate::dns::label::{name_wire, Label};
use vstd::prelude::*;

verus! {

/// A question with its name as plain text.
pub struct DnsQuestion {
    pub name: String,
    pub record_type: DnsRecordType,
    pub record_class: DnsRecordClass,
}

/// The one record type that such a question can ask for.
pub enum DnsRecordType {
    A,
}

/// The one record class that such a question can ask for.
pub enum DnsRecordClass {
    IN,
}

impl AsBytes for DnsRecordType {
    open spec fn encodable(&self) -> bool {
        true
    }

    open spec fn wire(&self) -> Seq<u8> {
        be16(1)
    }

    fn as_bytes(&self) -> (bytes: Vec<u8>) {
        let value: u16 = match self {
            DnsRecordType::A => 1,
        };
        let mut bytes: Vec<u8> = Vec::with_capacity(2);
        bytes.push((value / 256) as u8);
        bytes.push((value % 256) as u8);
        assert(bytes@ =~= be16(1));
        bytes
    }
}

impl AsBytes for DnsRecordClass {
    open spec fn encodable(&self) -> bool {
        true
    }

    open spec fn wire(&self) -> Seq<u8> {
        be16(1)
    }

    fn as_bytes(&self) -> (bytes: Vec<u8>) {
        let value: u16 = match self {
            DnsRecordClass::IN => 1,
        };
        let mut bytes: Vec<u8> = Vec::with_capacity(2);
        bytes.push((value / 256) as u8);
        bytes.push((value % 256) as u8);
        assert(bytes@ =~= be16(1));
        bytes
    }
}

impl AsBytes for DnsQuestion {
    open spec fn encodable(&self) -> bool {
        true
    }

    /// The name, the type and the class, one behind the other.
    open spec fn wire(&self) -> Seq<u8> {
        name_wire(self.name@) + be16(1) + be16(1)
    }

    fn as_bytes(&self) -> (bytes: Vec<u8>) {
        let mut labels = Label(self.name.clone()).as_bytes();
        let mut record_type = self.record_type.as_bytes();
        let mut record_class = self.record_class.as_bytes();
        labels.append(&mut record_type);
        labels.append(&mut record_class);
        labels
    }
}

} // verus!
