//! A codec for Bencode, the encoding of BitTorrent metainfo files and peer
//! messages: a decoder from bytes to a tree of values, and an encoder from a
//! tree of values to its canonical bytes.
//!
//! The wire format is stated as mathematical functions in [`wire`]: the
//! bytes that a value is written as, and what bytes read as. The
//! [`encoder::Encoder`] and the [`decoder::Decoder`] are proved to compute
//! these functions. Of the functions themselves [`roundtrip`] proves that
//! decoding inverts encoding, [`canonical`] that canonical input is encoded
//! again as it was, and [`prefix`] that a value is read from its own bytes
//! alone. [`entries`] does the same for the dictionary: what it is to store
//! and to look up, and what holds of the two.
//!
//! Both directions work on bytes in memory. Reading the bytes from a source
//! and writing them to a sink is left to the caller. What is believed of the
//! standard library without proof stands in [`std_specs`].

pub mod bencode;
pub mod canonical;
pub mod decimal;
pub mod decoder;
pub mod dictionary;
pub mod encoder;
pub mod entries;
pub mod keys;
pub mod prefix;
pub mod roundtrip;
pub mod std_specs;
pub mod symbols;
pub mod wire;
