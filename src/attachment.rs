//! Attachments, the on-chain references to them, and the structured values those
//! references are read from.
use vstd::prelude::*;
use vstd::string::StringSliceAdditionalSpecFns;
use crate::hash::{Hash160, hash160_of_bytes};

verus! {

/// Qualified identifier of the contract that scopes an attachment.
#[derive(Clone, Debug, PartialEq, Eq, Hash)]
pub struct ContractId {
    pub issuer: String,
    pub name: String,
}

impl View for ContractId {
    type V = (Seq<char>, Seq<char>);

    open spec fn view(&self) -> (Seq<char>, Seq<char>) {
        (self.issuer@, self.name@)
    }
}

impl ContractId {
    pub fn new(issuer: &str, name: &str) -> (r: ContractId)
        ensures
            r@ == (issuer@, name@),
    {
        ContractId { issuer: issuer.to_owned(), name: name.to_owned() }
    }

    /// The identifier used for contracts that are not yet deployed.
    pub fn transient() -> (r: ContractId)
        ensures
            r@ == ("S1G2081040G2081040G2081040G208105NK8PE5"@, "__transient"@),
    {
        ContractId::new("S1G2081040G2081040G2081040G208105NK8PE5", "__transient")
    }

    /// Whether both identifiers name the same contract.
    pub fn same_as(&self, other: &ContractId) -> (r: bool)
        ensures
            r == (self@ == other@),
    {
        self.issuer == other.issuer && self.name == other.name
    }

    /// A copy of this identifier.
    pub fn duplicate(&self) -> (r: ContractId)
        ensures
            r@ == self@,
    {
        ContractId { issuer: self.issuer.clone(), name: self.name.clone() }
    }
}

/// Hash of the block header that carried a reference.
#[derive(Clone, Copy, Debug, PartialEq, Eq, Hash)]
pub struct BlockHeaderHash {
    pub bytes: [u8; 32],
}

/// Immutable attachment content.
#[derive(Clone, Debug, PartialEq, Eq, Hash)]
pub struct Attachment {
    pub content: Vec<u8>,
}

impl Attachment {
    pub fn new(content: Vec<u8>) -> (r: Attachment)
        ensures
            r.content@ == content@,
    {
        Attachment { content }
    }
}

/// The attachment whose content is the bytes of `content`.
pub fn new_attachment_from(content: &str) -> (r: Attachment)
    ensures
        r.content@ == content.spec_bytes(),
{
    Attachment { content: vstd::slice::slice_to_vec(content.as_bytes()) }
}

/// A structured on-chain value.
#[derive(Debug, PartialEq, Eq)]
pub enum Value {
    Int(i128),
    UInt(u128),
    Buffer(Vec<u8>),
    Str(String),
    Tuple(Vec<TupleEntry>),
}

/// One named field of a tuple value.
#[derive(Debug, PartialEq, Eq)]
pub struct TupleEntry {
    pub name: String,
    pub value: Value,
}

/// The value of the first field of `fields` named `name`.
pub open spec fn field_of(fields: Seq<TupleEntry>, name: Seq<char>) -> Option<Value>
    decreases fields.len(),
{
    if fields.len() == 0 {
        None
    } else if fields[0].name@ == name {
        Some(fields[0].value)
    } else {
        field_of(fields.drop_first(), name)
    }
}

/// Returns the value of the first field of `fields` named `name`.
pub fn get_field<'a>(fields: &'a Vec<TupleEntry>, name: &str) -> (r: Option<&'a Value>)
    ensures
        r == match field_of(fields@, name@) {
            Some(v) => Some(&v),
            None => None::<&Value>,
        },
{
    let key = name.to_owned();
    let mut i: usize = 0;
    proof {
        assert(fields@.subrange(0, fields@.len() as int) =~= fields@);
    }
    while i < fields.len()
        invariant
            i <= fields@.len(),
            key@ == name@,
            field_of(fields@, name@) == field_of(fields@.subrange(i as int, fields@.len() as int), name@),
        decreases fields@.len() - i,
    {
        proof {
            assert(fields@.subrange(i as int, fields@.len() as int).drop_first() =~= fields@.subrange(
                i + 1,
                fields@.len() as int,
            ));
        }
        if fields[i].name == key {
            return Some(&fields[i].value);
        }
        i = i + 1;
    }
    None
}

/// Why a structured value does not describe an attachment instance.
#[derive(Clone, Copy, Debug, PartialEq, Eq, Structural)]
pub enum InstanceError {
    /// The value is not a tuple with an `attachment` tuple field.
    NotAnAttachment,
    /// `position-in-page` is absent, not unsigned, or above `u32::MAX`.
    InvalidPositionInPage,
    /// `page-index` is absent, not unsigned, or above `u32::MAX`.
    InvalidPageIndex,
    /// `hash` is absent, not a buffer, or neither empty nor 20 bytes long.
    InvalidHash,
}

/// The fields of the `attachment` tuple inside `v`.
pub open spec fn attachment_fields(v: Value) -> Option<Seq<TupleEntry>> {
    match v {
        Value::Tuple(outer) => match field_of(outer@, "attachment"@) {
            Some(Value::Tuple(inner)) => Some(inner@),
            _ => None,
        },
        _ => None,
    }
}

/// An unsigned field that fits in 32 bits.
pub open spec fn u32_field(fields: Seq<TupleEntry>, name: Seq<char>) -> Option<u32> {
    match field_of(fields, name) {
        Some(Value::UInt(n)) => if n <= u32::MAX {
            Some(n as u32)
        } else {
            None
        },
        _ => None,
    }
}

/// The content hash field: an empty buffer stands for the zero digest.
pub open spec fn hash_field(fields: Seq<TupleEntry>) -> Option<Hash160> {
    match field_of(fields, "hash"@) {
        Some(Value::Buffer(b)) => if b@.len() == 0 {
            Some(Hash160 { hi: 0, mid: 0, lo: 0 })
        } else if b@.len() == 20 {
            Some(hash160_of_bytes(b@))
        } else {
            None
        },
        _ => None,
    }
}

/// The metadata field: the string it holds, and empty when it holds no string.
pub open spec fn metadata_field(fields: Seq<TupleEntry>) -> Seq<char> {
    match field_of(fields, "metadata"@) {
        Some(Value::Str(s)) => s@,
        _ => Seq::empty(),
    }
}

/// What reading `v` yields: `(page_index, position_in_page, content_hash)`, or the first
/// field found wrong.
pub open spec fn instance_fields(v: Value) -> Result<(u32, u32, Hash160), InstanceError> {
    match attachment_fields(v) {
        None => Err(InstanceError::NotAnAttachment),
        Some(f) => match u32_field(f, "position-in-page"@) {
            None => Err(InstanceError::InvalidPositionInPage),
            Some(pos) => match u32_field(f, "page-index"@) {
                None => Err(InstanceError::InvalidPageIndex),
                Some(page) => match hash_field(f) {
                    None => Err(InstanceError::InvalidHash),
                    Some(h) => Ok((page, pos, h)),
                },
            },
        },
    }
}

/// A reference to an attachment found in chain state.
#[derive(Clone, Debug, PartialEq, Eq, Hash)]
pub struct AttachmentInstance {
    pub content_hash: Hash160,
    pub page_index: u32,
    pub position_in_page: u32,
    pub block_height: u64,
    pub consensus_hash: Hash160,
    pub metadata: String,
    pub contract_id: ContractId,
    pub block_header_hash: BlockHeaderHash,
}

fn read_u32_field(fields: &Vec<TupleEntry>, name: &str) -> (r: Option<u32>)
    ensures
        r == u32_field(fields@, name@),
{
    match get_field(fields, name) {
        Some(Value::UInt(n)) => {
            if *n <= u32::MAX as u128 {
                Some(*n as u32)
            } else {
                None
            }
        },
        _ => None,
    }
}

fn read_hash_field(fields: &Vec<TupleEntry>) -> (r: Option<Hash160>)
    ensures
        r == hash_field(fields@),
{
    match get_field(fields, "hash") {
        Some(Value::Buffer(b)) => {
            if b.len() == 0 {
                Some(Hash160::empty())
            } else {
                Hash160::from_bytes(b.as_slice())
            }
        },
        _ => None,
    }
}

fn read_metadata_field(fields: &Vec<TupleEntry>) -> (r: String)
    ensures
        r@ == metadata_field(fields@),
{
    match get_field(fields, "metadata") {
        Some(Value::Str(s)) => s.clone(),
        _ => String::new(),
    }
}

impl AttachmentInstance {
    /// Reads an instance from the structured value `value` that a contract emitted.
    pub fn try_new_from_value(
        value: &Value,
        contract_id: &ContractId,
        consensus_hash: &Hash160,
        block_header_hash: BlockHeaderHash,
        block_height: u64,
    ) -> (r: Result<AttachmentInstance, InstanceError>)
        ensures
            r.is_ok() <==> instance_fields(*value).is_ok(),
            r.is_err() ==> r == Err::<AttachmentInstance, InstanceError>(
                instance_fields(*value)->Err_0,
            ),
            r.is_ok() ==> ({
                let i = r.unwrap();
                let (page, pos, h) = instance_fields(*value).unwrap();
                &&& i.page_index == page
                &&& i.position_in_page == pos
                &&& i.content_hash == h
                &&& i.metadata@ == metadata_field(attachment_fields(*value).unwrap())
                &&& i.contract_id@ == contract_id@
                &&& i.consensus_hash == *consensus_hash
                &&& i.block_header_hash == block_header_hash
                &&& i.block_height == block_height
            }),
    {
        let fields = match value {
            Value::Tuple(outer) => match get_field(outer, "attachment") {
                Some(Value::Tuple(inner)) => inner,
                _ => return Err(InstanceError::NotAnAttachment),
            },
            _ => return Err(InstanceError::NotAnAttachment),
        };
        let position_in_page = match read_u32_field(fields, "position-in-page") {
            Some(n) => n,
            None => return Err(InstanceError::InvalidPositionInPage),
        };
        let page_index = match read_u32_field(fields, "page-index") {
            Some(n) => n,
            None => return Err(InstanceError::InvalidPageIndex),
        };
        let content_hash = match read_hash_field(fields) {
            Some(h) => h,
            None => return Err(InstanceError::InvalidHash),
        };
        let metadata = read_metadata_field(fields);
        Ok(AttachmentInstance {
            content_hash,
            page_index,
            position_in_page,
            block_height,
            consensus_hash: *consensus_hash,
            metadata,
            contract_id: contract_id.duplicate(),
            block_header_hash,
        })
    }
}

} // verus!
