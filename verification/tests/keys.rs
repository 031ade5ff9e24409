use search_core::error::Error;
use search_core::extract_word_pair_proximity_docids::build_key;
use search_core::proximity::{index_proximity, MAX_DISTANCE};
use search_core::store::documents_fields::{
    document_attribute_from_key, document_attribute_into_key, DocumentFieldsIter, DocumentId,
    DocumentsFields, DocumentsIdsIter, SchemaAttr, StoredValue,
};

#[test]
fn word_pair_key_layout() {
    let mut buffer = vec![9, 9, 9];
    let key = build_key(3, "quick", "fox", &mut buffer).to_vec();
    assert_eq!(key, b"\x03quick\x00fox");
    assert_eq!(buffer, key);
    assert_eq!(key.len(), 1 + 5 + 1 + 3);
    // the buffer is reused
    let key = build_key(1, "", "é", &mut buffer).to_vec();
    assert_eq!(key, vec![1, 0, 0xC3, 0xA9]);
    assert_eq!(buffer, key);
}

#[test]
fn word_pair_keys_sort_by_proximity_first() {
    let mut buffer = Vec::new();
    let near = build_key(1, "zzz", "zzz", &mut buffer).to_vec();
    let far = build_key(2, "aaa", "aaa", &mut buffer).to_vec();
    assert!(near < far);
}

#[test]
fn document_attribute_key_layout() {
    let key = document_attribute_into_key(DocumentId(0x0102_0304_0506_0708), SchemaAttr(0x090A));
    assert_eq!(key, [1, 2, 3, 4, 5, 6, 7, 8, 9, 10]);
    assert_eq!(
        document_attribute_from_key(key),
        (DocumentId(0x0102_0304_0506_0708), SchemaAttr(0x090A))
    );
    for (id, attr) in [(0u64, 0u16), (1, 1), (255, 256), (u64::MAX, u16::MAX), (1 << 40, 77)] {
        let key = document_attribute_into_key(DocumentId(id), SchemaAttr(attr));
        assert_eq!(key[..8], id.to_be_bytes());
        assert_eq!(key[8..], attr.to_be_bytes());
        assert_eq!(document_attribute_from_key(key), (DocumentId(id), SchemaAttr(attr)));
    }
    // keys are in the order of the documents, then of the attributes
    let a = document_attribute_into_key(DocumentId(255), SchemaAttr(9));
    let b = document_attribute_into_key(DocumentId(256), SchemaAttr(0));
    let c = document_attribute_into_key(DocumentId(256), SchemaAttr(1));
    assert!(a < b && b < c);
}

fn key(id: u64, attr: u16) -> Vec<u8> {
    document_attribute_into_key(DocumentId(id), SchemaAttr(attr)).to_vec()
}

#[test]
fn put_gives_key_and_blob() {
    let (k, value) = DocumentsFields::put_document_field(DocumentId(7), SchemaAttr(2), vec![1, 2]);
    assert_eq!(k.to_vec(), key(7, 2));
    assert!(matches!(value, StoredValue::Blob(bytes) if bytes == vec![1, 2]));
}

#[test]
fn deletion_takes_the_keys_of_the_document() {
    let keys = vec![key(7, 0), key(7, 3), key(7, 9), key(8, 0), key(7, 1)];
    let found = DocumentsFields::del_all_document_fields(&keys, DocumentId(7)).unwrap();
    assert_eq!(found, vec![key(7, 0), key(7, 3), key(7, 9)]);
    // the store is read from the first key of the document: another document first means none
    let found = DocumentsFields::del_all_document_fields(&keys, DocumentId(8)).unwrap();
    assert!(found.is_empty());
    let found = DocumentsFields::del_all_document_fields(&vec![], DocumentId(8)).unwrap();
    assert!(found.is_empty());
    let found = DocumentsFields::del_all_document_fields(&vec![key(8, 1)], DocumentId(8)).unwrap();
    assert_eq!(found.len(), 1);
    // a key of another length is not a key of this store
    let keys = vec![key(7, 0), vec![0, 0, 0, 0, 0, 0, 0, 7]];
    let outcome = DocumentsFields::del_all_document_fields(&keys, DocumentId(7));
    match outcome {
        Err(e @ Error::Internal) => assert_eq!(e.code(), "internal"),
        other => panic!("{other:?}"),
    }
    // unless the keys of the document end before it
    let keys = vec![key(7, 0), key(9, 0), vec![1]];
    assert_eq!(DocumentsFields::del_all_document_fields(&keys, DocumentId(7)).unwrap().len(), 1);
}

#[test]
fn attribute_lookup_wants_a_blob() {
    let found = DocumentsFields::document_attribute(Some(StoredValue::Blob(vec![4, 5]))).unwrap();
    assert_eq!(found, Some(vec![4, 5]));
    assert_eq!(DocumentsFields::document_attribute(None).unwrap(), None);
    assert!(matches!(
        DocumentsFields::document_attribute(Some(StoredValue::Other)),
        Err(Error::Internal)
    ));
}

#[test]
fn fields_iteration_stops_at_the_next_document() {
    let (start, mut iter) = DocumentsFields::document_fields(DocumentId(0x0102_0304_0506_0708));
    assert_eq!(start, [1, 2, 3, 4, 5, 6, 7, 8]);
    let (_, mut iter7): ([u8; 8], DocumentFieldsIter) = DocumentsFields::document_fields(DocumentId(7));
    let entry = iter7.next(&key(7, 3), StoredValue::Blob(vec![1])).unwrap();
    assert_eq!(entry, Some((SchemaAttr(3), vec![1])));
    let entry = iter7.next(&key(8, 0), StoredValue::Blob(vec![2])).unwrap();
    assert_eq!(entry, None);
    assert!(matches!(iter7.next(&key(7, 4), StoredValue::Other), Err(Error::Internal)));
    assert!(matches!(iter7.next(&vec![1, 2], StoredValue::Blob(vec![])), Err(Error::Internal)));
    assert_eq!(iter.next(&key(7, 4), StoredValue::Blob(vec![])).unwrap(), None);
    assert_eq!(iter.document_id, DocumentId(0x0102_0304_0506_0708));
}

#[test]
fn ids_iteration_gives_each_new_document() {
    let mut iter: DocumentsIdsIter = DocumentsFields::documents_ids();
    assert_eq!(iter.last_seen_id, None);
    let blob = StoredValue::Blob(vec![]);
    assert_eq!(iter.next(&key(7, 0), &blob).unwrap(), Some(DocumentId(7)));
    assert_eq!(iter.last_seen_id, Some(DocumentId(7)));
    // a further field of the document seen last gives nothing
    assert_eq!(iter.next(&key(7, 1), &blob).unwrap(), None);
    assert_eq!(iter.last_seen_id, Some(DocumentId(7)));
    assert_eq!(iter.next(&key(9, 0), &blob).unwrap(), Some(DocumentId(9)));
    assert!(matches!(iter.next(&key(9, 1), &StoredValue::Other), Err(Error::Internal)));
    assert!(matches!(iter.next(&vec![], &blob), Err(Error::Internal)));
    assert_eq!(iter.last_seen_id, Some(DocumentId(9)));
}

#[test]
fn proximity_of_positions() {
    assert_eq!(MAX_DISTANCE, 8);
    assert_eq!(index_proximity(5, 5), 0);
    assert_eq!(index_proximity(5, 6), 1);
    assert_eq!(index_proximity(5, 12), 7);
    assert_eq!(index_proximity(5, 13), 8);
    assert_eq!(index_proximity(0, u32::MAX), 8);
    // words in the other order are one further apart
    assert_eq!(index_proximity(6, 5), 2);
    assert_eq!(index_proximity(11, 5), 7);
    assert_eq!(index_proximity(12, 5), 8);
    assert_eq!(index_proximity(u32::MAX, 0), 8);
}

#[test]
fn a_key_tells_whether_it_is_of_a_document() {
    assert_eq!(DocumentsFields::key_belongs(&key(7, 3), DocumentId(7)).unwrap(), true);
    assert_eq!(DocumentsFields::key_belongs(&key(8, 0), DocumentId(7)).unwrap(), false);
    assert!(matches!(DocumentsFields::key_belongs(&vec![0, 7], DocumentId(7)), Err(Error::Internal)));
}
