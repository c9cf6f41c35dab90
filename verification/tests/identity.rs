//! Content signatures: determinism, sensitivity to every part of the
//! identity, and the exact digest format.

use sysunit::unit::{ArgSet, InstanceId};

#[test]
fn signature_of_empty_args_is_name_and_empty_digest() {
    // SHA-1 of the empty text.
    let id = InstanceId::build("leaf", "").unwrap();
    assert_eq!(id.signature(), "leaf-da39a3ee5e6b4b0d3255bfef95601890afd80709");
}

#[test]
fn signature_digests_names_and_values_in_order() {
    // SHA-1 of "a1b2".
    let id = InstanceId::build("root", "a=1,b=2").unwrap();
    assert_eq!(id.signature(), "root-87f7ff9d1e933e7b40a6b46cc6a3c6663247d915");
}

#[test]
fn identical_texts_give_identical_signatures() {
    let a = InstanceId::build("unit", "k=v,x=y").unwrap();
    let b = InstanceId::build("unit", "k=v,x=y").unwrap();
    assert_eq!(a.signature(), b.signature());
}

#[test]
fn different_names_or_values_give_different_signatures() {
    let a = InstanceId::build("unit", "k=v").unwrap();
    let b = InstanceId::build("unit", "k=w").unwrap();
    let c = InstanceId::build("item", "k=v").unwrap();
    assert_ne!(a.signature(), b.signature());
    assert_ne!(a.signature(), c.signature());
}

#[test]
fn argument_order_is_part_of_the_identity() {
    let a = InstanceId::build("unit", "a=1,b=2").unwrap();
    let b = InstanceId::build("unit", "b=2,a=1").unwrap();
    assert_ne!(a.signature(), b.signature());
}

#[test]
fn sha1_is_forty_lowercase_hex_chars() {
    let args = ArgSet::parse("x=1").unwrap();
    let digest = args.sha1();
    // SHA-1 of "x1".
    assert_eq!(digest, "16d4afa270ff905221b8edc8c851e6275a3f7da4");
    assert_eq!(digest.len(), 40);
}
