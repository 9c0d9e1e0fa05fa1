//! Constant resolution across imports: shadowing, aliases, and diamond
//! deduplication.

use cob_core::constants::{path_to_string, ConstantsArena, ConstantsBuffer};
use cob_core::fill::CafFill;
use cob_core::num::CafNumberValue;
use cob_core::value::{CafNumber, CafValue};

fn number_value(text: &[u8]) -> CafValue {
    CafValue::Number(CafNumber {
        fill: CafFill::default(),
        number: CafNumberValue { bytes: text.to_vec() },
    })
}

fn number_bytes(v: &CafValue) -> Vec<u8> {
    match v {
        CafValue::Number(n) => n.number.bytes.clone(),
        _ => panic!("expected a number"),
    }
}

#[test]
fn alias_resolves_imported_constant() {
    let mut arena = ConstantsArena::new();
    // File B declares x = 1.
    let mut b = ConstantsBuffer::new();
    b.start_new_file();
    b.insert(b"x".to_vec(), number_value(b"1"));
    b.end_new_file(&mut arena);
    // File A imports B as `b`.
    let mut a = ConstantsBuffer::new();
    a.append(&b"b".to_vec(), &b);
    a.start_new_file();
    let got = a.get(&arena, &b"b::x".to_vec()).expect("expected b::x to resolve");
    assert_eq!(number_bytes(got), b"1".to_vec());
    // The unaliased name does not resolve.
    assert!(a.get(&arena, &b"x".to_vec()).is_none());
}

#[test]
fn own_declaration_shadows_import() {
    let mut arena = ConstantsArena::new();
    let mut b = ConstantsBuffer::new();
    b.start_new_file();
    b.insert(b"x".to_vec(), number_value(b"1"));
    b.end_new_file(&mut arena);
    let mut a = ConstantsBuffer::new();
    // Import B under the empty alias, so its `x` is visible unqualified.
    a.append(&b"".to_vec(), &b);
    a.start_new_file();
    let got = a.get(&arena, &b"x".to_vec()).expect("expected the import to resolve");
    assert_eq!(number_bytes(got), b"1".to_vec());
    // A's own declaration wins.
    a.insert(b"x".to_vec(), number_value(b"2"));
    let got = a.get(&arena, &b"x".to_vec()).expect("expected x to resolve");
    assert_eq!(number_bytes(got), b"2".to_vec());
}

#[test]
fn newest_import_shadows_older_one() {
    let mut arena = ConstantsArena::new();
    let mut b = ConstantsBuffer::new();
    b.start_new_file();
    b.insert(b"y".to_vec(), number_value(b"1"));
    b.end_new_file(&mut arena);
    let mut c = ConstantsBuffer::new();
    c.start_new_file();
    c.insert(b"y".to_vec(), number_value(b"3"));
    c.end_new_file(&mut arena);
    let mut a = ConstantsBuffer::new();
    a.append(&b"m".to_vec(), &b);
    a.append(&b"m".to_vec(), &c);
    a.start_new_file();
    // Both imports answer to m::y; the newer one wins.
    let got = a.get(&arena, &b"m::y".to_vec()).expect("expected m::y to resolve");
    assert_eq!(number_bytes(got), b"3".to_vec());
}

#[test]
fn within_file_last_write_wins() {
    let mut arena = ConstantsArena::new();
    let mut a = ConstantsBuffer::new();
    a.start_new_file();
    a.insert(b"k".to_vec(), number_value(b"1"));
    a.insert(b"k".to_vec(), number_value(b"2"));
    let got = a.get(&arena, &b"k".to_vec()).expect("expected k to resolve");
    assert_eq!(number_bytes(got), b"2".to_vec());
}

#[test]
fn transitive_alias_chain_resolves() {
    let mut arena = ConstantsArena::new();
    // D declares z = 7.
    let mut d = ConstantsBuffer::new();
    d.start_new_file();
    d.insert(b"z".to_vec(), number_value(b"7"));
    d.end_new_file(&mut arena);
    // B imports D as `dee`, then freezes its own (empty) file.
    let mut b = ConstantsBuffer::new();
    b.append(&b"dee".to_vec(), &d);
    b.start_new_file();
    b.end_new_file(&mut arena);
    // A imports B as `bee`: D's constant is reachable as bee::dee::z.
    let mut a = ConstantsBuffer::new();
    a.append(&b"bee".to_vec(), &b);
    a.start_new_file();
    let got = a.get(&arena, &b"bee::dee::z".to_vec()).expect("expected bee::dee::z to resolve");
    assert_eq!(number_bytes(got), b"7".to_vec());
}

#[test]
fn diamond_import_keeps_one_entry_per_shared_map() {
    let mut arena = ConstantsArena::new();
    // D is the shared dependency.
    let mut d = ConstantsBuffer::new();
    d.start_new_file();
    d.insert(b"z".to_vec(), number_value(b"7"));
    d.end_new_file(&mut arena);
    // B and C both import D as `d`.
    let mut b = ConstantsBuffer::new();
    b.append(&b"d".to_vec(), &d);
    b.start_new_file();
    b.end_new_file(&mut arena);
    let mut c = ConstantsBuffer::new();
    c.append(&b"d".to_vec(), &d);
    c.start_new_file();
    c.end_new_file(&mut arena);
    // A imports both under the empty alias: D's entry must not double up.
    let mut a = ConstantsBuffer::new();
    a.append(&b"".to_vec(), &b);
    assert_eq!(a.import_count(), 2);
    a.append(&b"".to_vec(), &c);
    // Without deduplication this would be four entries, one of them a
    // repeat of (d, D's map identity).
    assert_eq!(a.import_count(), 3);
    let mut d_entries = 0;
    for i in 0..a.import_count() {
        let (prefix, index) = a.import_at(i);
        if prefix == b"d".to_vec() && index == 0 {
            d_entries += 1;
        }
    }
    assert_eq!(d_entries, 1);
    // The shared constant still resolves.
    a.start_new_file();
    let got = a.get(&arena, &b"d::z".to_vec()).expect("expected d::z to resolve");
    assert_eq!(number_bytes(got), b"7".to_vec());
}

#[test]
fn path_to_string_joins_nonempty_parts() {
    let sep = b"::".to_vec();
    let joined = path_to_string(&sep, &vec![b"a".to_vec(), b"b".to_vec(), b"c".to_vec()]);
    assert_eq!(joined, b"a::b::c".to_vec());
    let joined = path_to_string(&sep, &vec![b"".to_vec(), b"a".to_vec(), b"".to_vec()]);
    assert_eq!(joined, b"a".to_vec());
    let joined = path_to_string(&sep, &vec![b"".to_vec(), b"".to_vec()]);
    assert_eq!(joined, b"".to_vec());
}

#[test]
fn lookup_strips_one_optional_separator() {
    let mut arena = ConstantsArena::new();
    let mut b = ConstantsBuffer::new();
    b.start_new_file();
    b.insert(b"x".to_vec(), number_value(b"9"));
    b.end_new_file(&mut arena);
    let mut a = ConstantsBuffer::new();
    a.append(&b"p".to_vec(), &b);
    a.start_new_file();
    // With the separator, and glued to the prefix without one.
    assert!(a.get(&arena, &b"p::x".to_vec()).is_some());
    assert!(a.get(&arena, &b"px".to_vec()).is_some());
    // A path that does not carry the prefix misses.
    assert!(a.get(&arena, &b"q::x".to_vec()).is_none());
}
