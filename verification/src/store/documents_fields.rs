//! The store of document fields: one entry for each attribute of each
//! document, under a key made of the document id and the attribute.
//!
//! The library computes the keys and decides what each entry read from the
//! store means. Reading and writing the store is the affair of the caller.

use vstd::prelude::*;
use crate::error::Error;

verus! {

/// The identifier of a stored document.
#[derive(Debug, Clone, Copy, PartialEq, Eq, Structural)]
pub struct DocumentId(pub u64);

/// The identifier of an attribute of the schema.
#[derive(Debug, Clone, Copy, PartialEq, Eq, Structural)]
pub struct SchemaAttr(pub u16);

/// The length of a key of the store.
pub const KEY_LENGTH: usize = 10;

/// The byte of `x` at place `i`, counted from the most significant byte, of
/// a number written on `width` bytes.
pub open spec fn big_endian_byte(x: u64, width: int, i: int) -> u8 {
    ((x >> ((8 * (width - 1 - i)) as u64)) & 0xff) as u8
}

/// The key of an attribute of a document: the document id on eight bytes,
/// then the attribute on two, both with the most significant byte first.
pub open spec fn document_attribute_key(document_id: DocumentId, attribute: SchemaAttr) -> Seq<
    u8,
> {
    Seq::new(
        10,
        |i: int|
            if i < 8 {
                big_endian_byte(document_id.0, 8, i)
            } else {
                big_endian_byte(attribute.0 as u64, 2, i - 8)
            },
    )
}

/// Builds the key of an attribute of a document.
pub fn document_attribute_into_key(document_id: DocumentId, attribute: SchemaAttr) -> (key: [u8;
    10])
    ensures
        key@ == document_attribute_key(document_id, attribute),
{
    let id = document_id.0;
    let attr = attribute.0;
    let key: [u8; 10] = [
        ((id >> 56) & 0xff) as u8,
        ((id >> 48) & 0xff) as u8,
        ((id >> 40) & 0xff) as u8,
        ((id >> 32) & 0xff) as u8,
        ((id >> 24) & 0xff) as u8,
        ((id >> 16) & 0xff) as u8,
        ((id >> 8) & 0xff) as u8,
        (id & 0xff) as u8,
        ((attr >> 8) & 0xff) as u8,
        (attr & 0xff) as u8,
    ];
    proof {
        assert(id & 0xff == (id >> 0) & 0xff) by (bit_vector);
        assert(((attr >> 8) & 0xff) as u8 == (((attr as u64) >> 8) & 0xff) as u8) by (bit_vector);
        assert((attr & 0xff) as u8 == (((attr as u64) >> 0) & 0xff) as u8) by (bit_vector);
        assert(key@ =~= document_attribute_key(document_id, attribute));
    }
    key
}

/// The document and the attribute that a key tells.
pub open spec fn key_document(key: Seq<u8>) -> DocumentId {
    DocumentId(
        (key[0] as u64) << 56 | (key[1] as u64) << 48 | (key[2] as u64) << 40 | (key[3] as u64)
            << 32 | (key[4] as u64) << 24 | (key[5] as u64) << 16 | (key[6] as u64) << 8 | (
        key[7] as u64),
    )
}

/// The attribute that a key tells.
pub open spec fn key_attribute(key: Seq<u8>) -> SchemaAttr {
    SchemaAttr((key[8] as u16) << 8 | (key[9] as u16))
}

/// Reads back the document and the attribute of a key.
pub fn document_attribute_from_key(key: [u8; 10]) -> (parts: (DocumentId, SchemaAttr))
    ensures
        parts.0 == key_document(key@),
        parts.1 == key_attribute(key@),
{
    let document_id = (key[0] as u64) << 56 | (key[1] as u64) << 48 | (key[2] as u64) << 40 | (
    key[3] as u64) << 32 | (key[4] as u64) << 24 | (key[5] as u64) << 16 | (key[6] as u64) << 8 | (
    key[7] as u64);
    let attribute = (key[8] as u16) << 8 | (key[9] as u16);
    (DocumentId(document_id), SchemaAttr(attribute))
}

/// A key read back gives the document and the attribute that it was built
/// from.
pub proof fn lemma_key_round_trip(document_id: DocumentId, attribute: SchemaAttr)
    ensures
        key_document(document_attribute_key(document_id, attribute)) == document_id,
        key_attribute(document_attribute_key(document_id, attribute)) == attribute,
{
    let id = document_id.0;
    let attr = attribute.0;
    let key = document_attribute_key(document_id, attribute);
    assert(key[0] == ((id >> 56) & 0xff) as u8);
    assert(key[1] == ((id >> 48) & 0xff) as u8);
    assert(key[2] == ((id >> 40) & 0xff) as u8);
    assert(key[3] == ((id >> 32) & 0xff) as u8);
    assert(key[4] == ((id >> 24) & 0xff) as u8);
    assert(key[5] == ((id >> 16) & 0xff) as u8);
    assert(key[6] == ((id >> 8) & 0xff) as u8);
    assert(key[7] == ((id >> 0) & 0xff) as u8);
    assert(key[8] == (((attr as u64) >> 8) & 0xff) as u8);
    assert(key[9] == (((attr as u64) >> 0) & 0xff) as u8);
    assert(((((id >> 56) & 0xff) as u8) as u64) << 56 | ((((id >> 48) & 0xff) as u8) as u64) << 48
        | ((((id >> 40) & 0xff) as u8) as u64) << 40 | ((((id >> 32) & 0xff) as u8) as u64) << 32
        | ((((id >> 24) & 0xff) as u8) as u64) << 24 | ((((id >> 16) & 0xff) as u8) as u64) << 16
        | ((((id >> 8) & 0xff) as u8) as u64) << 8 | ((((id >> 0) & 0xff) as u8) as u64) == id)
        by (bit_vector);
    assert((((((attr as u64) >> 8) & 0xff) as u8) as u16) << 8 | (((((attr as u64) >> 0)
        & 0xff) as u8) as u16) == attr) by (bit_vector);
}

/// The keys of the store are in the order of the documents: of two keys,
/// the one of the smaller document id has the smaller first byte at which
/// the keys differ.
pub proof fn lemma_key_order_follows_document(a: DocumentId, b: DocumentId)
    requires
        a.0 < b.0,
    ensures
        exists|i: int|
            0 <= i < 8 && #[trigger] big_endian_byte(a.0, 8, i) < big_endian_byte(b.0, 8, i)
                && forall|j: int|
                0 <= j < i ==> big_endian_byte(a.0, 8, j) == big_endian_byte(b.0, 8, j),
{
    let x = a.0;
    let y = b.0;
    assert(x < y ==> (((x >> 56) & 0xff) < ((y >> 56) & 0xff) || (((x >> 56) & 0xff) == ((y >> 56)
        & 0xff) && (((x >> 48) & 0xff) < ((y >> 48) & 0xff) || (((x >> 48) & 0xff) == ((y >> 48)
        & 0xff) && (((x >> 40) & 0xff) < ((y >> 40) & 0xff) || (((x >> 40) & 0xff) == ((y >> 40)
        & 0xff) && (((x >> 32) & 0xff) < ((y >> 32) & 0xff) || (((x >> 32) & 0xff) == ((y >> 32)
        & 0xff) && (((x >> 24) & 0xff) < ((y >> 24) & 0xff) || (((x >> 24) & 0xff) == ((y >> 24)
        & 0xff) && (((x >> 16) & 0xff) < ((y >> 16) & 0xff) || (((x >> 16) & 0xff) == ((y >> 16)
        & 0xff) && (((x >> 8) & 0xff) < ((y >> 8) & 0xff) || (((x >> 8) & 0xff) == ((y >> 8)
        & 0xff) && ((x >> 0) & 0xff) < ((y >> 0) & 0xff)))))))))))))))) by (bit_vector);
    let b0 = big_endian_byte(x, 8, 0) < big_endian_byte(y, 8, 0);
    let e0 = big_endian_byte(x, 8, 0) == big_endian_byte(y, 8, 0);
    let b1 = big_endian_byte(x, 8, 1) < big_endian_byte(y, 8, 1);
    let e1 = big_endian_byte(x, 8, 1) == big_endian_byte(y, 8, 1);
    let b2 = big_endian_byte(x, 8, 2) < big_endian_byte(y, 8, 2);
    let e2 = big_endian_byte(x, 8, 2) == big_endian_byte(y, 8, 2);
    let b3 = big_endian_byte(x, 8, 3) < big_endian_byte(y, 8, 3);
    let e3 = big_endian_byte(x, 8, 3) == big_endian_byte(y, 8, 3);
    let b4 = big_endian_byte(x, 8, 4) < big_endian_byte(y, 8, 4);
    let e4 = big_endian_byte(x, 8, 4) == big_endian_byte(y, 8, 4);
    let b5 = big_endian_byte(x, 8, 5) < big_endian_byte(y, 8, 5);
    let e5 = big_endian_byte(x, 8, 5) == big_endian_byte(y, 8, 5);
    let b6 = big_endian_byte(x, 8, 6) < big_endian_byte(y, 8, 6);
    let e6 = big_endian_byte(x, 8, 6) == big_endian_byte(y, 8, 6);
    let b7 = big_endian_byte(x, 8, 7) < big_endian_byte(y, 8, 7);
    assert(((x >> 56) & 0xff) < 256 && ((y >> 56) & 0xff) < 256 && ((x >> 48) & 0xff) < 256 && ((y
        >> 48) & 0xff) < 256 && ((x >> 40) & 0xff) < 256 && ((y >> 40) & 0xff) < 256 && ((x >> 32)
        & 0xff) < 256 && ((y >> 32) & 0xff) < 256 && ((x >> 24) & 0xff) < 256 && ((y >> 24) & 0xff)
        < 256 && ((x >> 16) & 0xff) < 256 && ((y >> 16) & 0xff) < 256 && ((x >> 8) & 0xff) < 256
        && ((y >> 8) & 0xff) < 256 && ((x >> 0) & 0xff) < 256 && ((y >> 0) & 0xff) < 256)
        by (bit_vector);
    if b0 {
        assert(big_endian_byte(x, 8, 0) < big_endian_byte(y, 8, 0));
    } else if b1 {
        assert(big_endian_byte(x, 8, 1) < big_endian_byte(y, 8, 1));
    } else if b2 {
        assert(big_endian_byte(x, 8, 2) < big_endian_byte(y, 8, 2));
    } else if b3 {
        assert(big_endian_byte(x, 8, 3) < big_endian_byte(y, 8, 3));
    } else if b4 {
        assert(big_endian_byte(x, 8, 4) < big_endian_byte(y, 8, 4));
    } else if b5 {
        assert(big_endian_byte(x, 8, 5) < big_endian_byte(y, 8, 5));
    } else if b6 {
        assert(big_endian_byte(x, 8, 6) < big_endian_byte(y, 8, 6));
    } else {
        assert(big_endian_byte(x, 8, 7) < big_endian_byte(y, 8, 7));
    }
}

/// Whether a key comes before another in the order of the store, which
/// compares keys byte by byte.
pub open spec fn key_before(a: Seq<u8>, b: Seq<u8>) -> bool {
    exists|i: int|
        0 <= i < a.len() && i < b.len() && #[trigger] a[i] < b[i] && forall|j: int|
            0 <= j < i ==> a[j] == b[j]
}

/// The keys of the store are in the order of the documents and, for one
/// document, in the order of its attributes: a range scan from the first
/// possible key of a document meets all the entries of the document, one
/// attribute after the other, before any entry of a later document.
pub proof fn lemma_key_order(
    document_id: DocumentId,
    attribute: SchemaAttr,
    later_document_id: DocumentId,
    later_attribute: SchemaAttr,
)
    requires
        document_id.0 < later_document_id.0 || (document_id == later_document_id && attribute.0
            < later_attribute.0),
    ensures
        key_before(
            document_attribute_key(document_id, attribute),
            document_attribute_key(later_document_id, later_attribute),
        ),
{
    let a = document_attribute_key(document_id, attribute);
    let b = document_attribute_key(later_document_id, later_attribute);
    if document_id.0 < later_document_id.0 {
        lemma_key_order_follows_document(document_id, later_document_id);
        let i = choose|i: int|
            0 <= i < 8 && #[trigger] big_endian_byte(document_id.0, 8, i) < big_endian_byte(
                later_document_id.0,
                8,
                i,
            ) && forall|j: int|
                0 <= j < i ==> big_endian_byte(document_id.0, 8, j) == big_endian_byte(
                    later_document_id.0,
                    8,
                    j,
                );
        assert(a[i] < b[i]);
        assert forall|j: int| 0 <= j < i implies a[j] == b[j] by {}
    } else {
        let x = attribute.0 as u64;
        let y = later_attribute.0 as u64;
        assert(x < y && x < 0x10000 && y < 0x10000 ==> (((x >> 8) & 0xff) < ((y >> 8) & 0xff) || (((
        x >> 8) & 0xff) == ((y >> 8) & 0xff) && ((x >> 0) & 0xff) < ((y >> 0) & 0xff))))
            by (bit_vector);
        assert(((x >> 8) & 0xff) < 256 && ((y >> 8) & 0xff) < 256 && ((x >> 0) & 0xff) < 256 && ((y
            >> 0) & 0xff) < 256) by (bit_vector);
        assert forall|j: int| 0 <= j < 8 implies a[j] == b[j] by {}
        if big_endian_byte(x, 2, 0) < big_endian_byte(y, 2, 0) {
            assert(a[8] < b[8]);
        } else {
            assert(a[8] == b[8]);
            assert(a[9] < b[9]);
        }
    }
}

/// A value as the store hands it out: the bytes of a blob, or a value of
/// another kind, which this store never writes.
#[derive(Debug)]
pub enum StoredValue {
    Blob(Vec<u8>),
    Other,
}

/// Copies a key of the right length into an array.
fn key_array(key: &Vec<u8>) -> (array: Option<[u8; 10]>)
    ensures
        array is Some <==> key@.len() == 10,
        array matches Some(a) ==> a@ == key@,
{
    if key.len() != 10 {
        return None;
    }
    let array: [u8; 10] = [
        key[0],
        key[1],
        key[2],
        key[3],
        key[4],
        key[5],
        key[6],
        key[7],
        key[8],
        key[9],
    ];
    assert(array@ =~= key@);
    Some(array)
}

/// Whether the key is one of the entries of the document.
pub open spec fn belongs_to(key: Seq<u8>, document_id: DocumentId) -> bool {
    key.len() == 10 && key_document(key) == document_id
}

/// The number of keys at the beginning of `keys` that are well formed, up
/// to the first key of another document.
pub open spec fn leading_well_formed(keys: Seq<Vec<u8>>, document_id: DocumentId) -> int
    decreases keys.len(),
{
    if keys.len() == 0 || keys[0]@.len() != 10 || key_document(keys[0]@) != document_id {
        0
    } else {
        1 + leading_well_formed(keys.drop_first(), document_id)
    }
}

/// The layout of the store of document fields.
#[derive(Debug, Clone, Copy)]
pub struct DocumentsFields;

/// The iteration over the fields of one document.
#[derive(Debug)]
pub struct DocumentFieldsIter {
    pub document_id: DocumentId,
}

/// The iteration over the ids of the documents of the store.
#[derive(Debug)]
pub struct DocumentsIdsIter {
    pub last_seen_id: Option<DocumentId>,
}

/// The first eight bytes of the keys of a document, from which the entries
/// of the document are read.
pub open spec fn document_key_prefix(document_id: DocumentId) -> Seq<u8> {
    Seq::new(8, |i: int| big_endian_byte(document_id.0, 8, i))
}

impl DocumentsFields {
    /// What to write for one field of a document: the key of the field and
    /// the bytes of the field as a blob.
    pub fn put_document_field(document_id: DocumentId, attribute: SchemaAttr, value: Vec<u8>) -> (entry:
        ([u8; 10], StoredValue))
        ensures
            entry.0@ == document_attribute_key(document_id, attribute),
            entry.1 == StoredValue::Blob(value),
    {
        (document_attribute_into_key(document_id, attribute), StoredValue::Blob(value))
    }

    /// Whether the key is one of the entries of the document. A key that
    /// does not have the length of a key is reported as `Internal`.
    pub fn key_belongs(key: &Vec<u8>, document_id: DocumentId) -> (r: Result<bool, Error>)
        ensures
            key@.len() == 10 ==> r == Ok::<bool, Error>(belongs_to(key@, document_id)),
            key@.len() != 10 ==> (r matches Err(e) && e is Internal),
    {
        match key_array(key) {
            None => Err(Error::Internal),
            Some(array) => {
                let (current_document_id, _) = document_attribute_from_key(array);
                Ok(current_document_id == document_id)
            },
        }
    }

    /// The keys to delete in order to remove a document, given the keys of the
    /// store from the first possible key of the document on: the keys at the
    /// beginning that belong to the document. A key that does not have the
    /// length of a key, met before a key of another document, is reported as
    /// `Internal`.
    pub fn del_all_document_fields(keys: &Vec<Vec<u8>>, document_id: DocumentId) -> (r: Result<
        Vec<Vec<u8>>,
        Error,
    >)
        ensures
            r matches Ok(found) ==> {
                &&& found@.len() == leading_well_formed(keys@, document_id)
                &&& forall|i: int| 0 <= i < found@.len() ==> (#[trigger] found@[i])@ == keys@[i]@
                &&& forall|i: int| 0 <= i < found@.len() ==> belongs_to(#[trigger] keys@[i]@, document_id)
                &&& found@.len() < keys@.len() ==> keys@[found@.len() as int]@.len() == 10
                    && !belongs_to(keys@[found@.len() as int]@, document_id)
            },
            r matches Err(e) ==> e is Internal && exists|i: int|
                0 <= i < keys@.len() && (#[trigger] keys@[i])@.len() != 10 && forall|j: int|
                    0 <= j < i ==> belongs_to(#[trigger] keys@[j]@, document_id),
    {
        let mut found: Vec<Vec<u8>> = Vec::new();
        let mut i: usize = 0;
        assert(keys@.skip(0) =~= keys@);
        while i < keys.len()
            invariant
                i <= keys@.len(),
                found@.len() == i,
                forall|k: int| 0 <= k < i ==> (#[trigger] found@[k])@ == keys@[k]@,
                forall|k: int| 0 <= k < i ==> belongs_to(#[trigger] keys@[k]@, document_id),
                leading_well_formed(keys@, document_id) == i + leading_well_formed(
                    keys@.skip(i as int),
                    document_id,
                ),
            decreases keys@.len() - i,
        {
            let ghost rest = keys@.skip(i as int);
            assert(rest[0] == keys@[i as int]);
            assert(rest.drop_first() == keys@.skip(i + 1));
            match key_array(&keys[i]) {
                None => {
                    return Err(Error::Internal);
                },
                Some(array) => {
                    let (current_document_id, _) = document_attribute_from_key(array);
                    if current_document_id != document_id {
                        return Ok(found);
                    }
                    let mut copy: Vec<u8> = Vec::new();
                    let mut b: usize = 0;
                    while b < 10
                        invariant
                            b <= 10,
                            array@.len() == 10,
                            copy@ == array@.take(b as int),
                        decreases 10 - b,
                    {
                        copy.push(array[b]);
                        assert(array@.take(b + 1) == array@.take(b as int).push(array@[b as int]));
                        b += 1;
                    }
                    assert(array@.take(10) == array@);
                    found.push(copy);
                },
            }
            i += 1;
        }
        assert(keys@.skip(keys@.len() as int) =~= Seq::<Vec<u8>>::empty());
        Ok(found)
    }

    /// What a lookup of one attribute gives: the bytes of the blob if the store
    /// holds one, nothing if it holds no entry, and `Internal` if it holds a
    /// value of another kind.
    pub fn document_attribute(found: Option<StoredValue>) -> (r: Result<Option<Vec<u8>>, Error>)
        ensures
            match found {
                Some(StoredValue::Blob(bytes)) => r == Ok::<Option<Vec<u8>>, Error>(Some(bytes)),
                Some(StoredValue::Other) => r matches Err(e) && e is Internal,
                None => r == Ok::<Option<Vec<u8>>, Error>(None),
            },
    {
        match found {
            Some(StoredValue::Blob(bytes)) => Ok(Some(bytes)),
            Some(StoredValue::Other) => Err(Error::Internal),
            None => Ok(None),
        }
    }

    /// Begins the iteration over the fields of a document: the key from
    /// which to read the store, and the iteration.
    pub fn document_fields(document_id: DocumentId) -> (begin: ([u8; 8], DocumentFieldsIter))
        ensures
            begin.0@ == document_key_prefix(document_id),
            begin.1.document_id == document_id,
    {
        let id = document_id.0;
        let prefix: [u8; 8] = [
            ((id >> 56) & 0xff) as u8,
            ((id >> 48) & 0xff) as u8,
            ((id >> 40) & 0xff) as u8,
            ((id >> 32) & 0xff) as u8,
            ((id >> 24) & 0xff) as u8,
            ((id >> 16) & 0xff) as u8,
            ((id >> 8) & 0xff) as u8,
            (id & 0xff) as u8,
        ];
        proof {
            assert(id & 0xff == (id >> 0) & 0xff) by (bit_vector);
            assert(prefix@ =~= document_key_prefix(document_id));
        }
        (prefix, DocumentFieldsIter { document_id })
    }

    /// Begins the iteration over the ids of the documents, which reads the
    /// store from its first entry.
    pub fn documents_ids() -> (iter: DocumentsIdsIter)
        ensures
            iter.last_seen_id is None,
    {
        DocumentsIdsIter { last_seen_id: None }
    }
}

impl DocumentFieldsIter {
    /// What the next entry of the store means to the iteration over the fields
    /// of one document: the attribute and the bytes if the entry belongs to
    /// the document, the end of the iteration if it belongs to another one,
    /// and `Internal` if the key does not have the length of a key or the
    /// value is not a blob.
    pub fn next(&mut self, key: &Vec<u8>, value: StoredValue) -> (r:
        Result<Option<(SchemaAttr, Vec<u8>)>, Error>)
        ensures
            *final(self) == *old(self),
            match value {
                StoredValue::Blob(bytes) => if key@.len() != 10 {
                    r matches Err(e) && e is Internal
                } else if key_document(key@) == old(self).document_id {
                    r == Ok::<Option<(SchemaAttr, Vec<u8>)>, Error>(
                        Some((key_attribute(key@), bytes)),
                    )
                } else {
                    r == Ok::<Option<(SchemaAttr, Vec<u8>)>, Error>(None)
                },
                StoredValue::Other => r matches Err(e) && e is Internal,
            },
    {
        match value {
            StoredValue::Blob(bytes) => match key_array(key) {
                Some(array) => {
                    let (current_document_id, attr) = document_attribute_from_key(array);
                    if current_document_id != self.document_id {
                        Ok(None)
                    } else {
                        Ok(Some((attr, bytes)))
                    }
                },
                None => Err(Error::Internal),
            },
            StoredValue::Other => Err(Error::Internal),
        }
    }
}

impl DocumentsIdsIter {
    /// What the next entry of the store means to the iteration over the ids of
    /// the documents: the id of its document, which the iteration then
    /// remembers; or `None` if it is the id seen last, in which case the
    /// entry is passed over and the iteration goes on with the entry that
    /// follows, so that each document comes once; `Internal` if the key does
    /// not have the length of a key or the value is not a blob.
    pub fn next(&mut self, key: &Vec<u8>, value: &StoredValue) -> (r:
        Result<Option<DocumentId>, Error>)
        ensures
            match *value {
                StoredValue::Blob(_) => if key@.len() != 10 {
                    (r matches Err(e) && e is Internal) && final(self).last_seen_id == old(self).last_seen_id
                } else if old(self).last_seen_id == Some(key_document(key@)) {
                    r == Ok::<Option<DocumentId>, Error>(None) && final(self).last_seen_id == old(self).last_seen_id
                } else {
                    r == Ok::<Option<DocumentId>, Error>(Some(key_document(key@))) && final(self).last_seen_id == Some(key_document(key@))
                },
                StoredValue::Other => (r matches Err(e) && e is Internal) && final(self).last_seen_id
                    == old(self).last_seen_id,
            },
    {
        match value {
            StoredValue::Blob(_) => match key_array(key) {
                Some(array) => {
                    let (document_id, _) = document_attribute_from_key(array);
                    let seen = match self.last_seen_id {
                        Some(last) => last.0 == document_id.0,
                        None => false,
                    };
                    if !seen {
                        self.last_seen_id = Some(document_id);
                        Ok(Some(document_id))
                    } else {
                        Ok(None)
                    }
                },
                None => Err(Error::Internal),
            },
            StoredValue::Other => Err(Error::Internal),
        }
    }
}

} // verus!
