//! Test utilities: payloads that can be made again, and sizes worth trying.

use std::collections::BTreeSet;
use vstd::prelude::*;
use crate::chunk::{Chunk, MAX_PAYLOAD};
use crate::endian::put_bytes;
use crate::kind::Kind;
use crate::ordered::{ascending, put};
use crate::rows::rising;
use crate::text::{
    all_ascii, ascii_chars, ascii_string, decimal, decimal_digits, lemma_decimal_digits,
};
use crate::zlib::deflated;

verus! {

/// How many words the word list has.
pub const WORDS: u32 = 80;

/// A short list of words to help generate reasonably compressible data.
#[verifier::opaque]
pub open spec fn word_bytes(i: u32) -> Seq<u8> {
    match i {
        0 => seq![0x74u8, 0x68u8, 0x65u8],
        1 => seq![0x62u8, 0x65u8],
        2 => seq![0x74u8, 0x6fu8],
        3 => seq![0x6fu8, 0x66u8],
        4 => seq![0x61u8, 0x6eu8, 0x64u8],
        5 => seq![0x61u8],
        6 => seq![0x69u8, 0x6eu8],
        7 => seq![0x74u8, 0x68u8, 0x61u8, 0x74u8],
        8 => seq![0x68u8, 0x61u8, 0x76u8, 0x65u8],
        9 => seq![0x49u8],
        10 => seq![0x69u8, 0x74u8],
        11 => seq![0x66u8, 0x6fu8, 0x72u8],
        12 => seq![0x6eu8, 0x6fu8, 0x74u8],
        13 => seq![0x6fu8, 0x6eu8],
        14 => seq![0x77u8, 0x69u8, 0x74u8, 0x68u8],
        15 => seq![0x68u8, 0x65u8],
        16 => seq![0x61u8, 0x73u8],
        17 => seq![0x79u8, 0x6fu8, 0x75u8],
        18 => seq![0x64u8, 0x6fu8],
        19 => seq![0x61u8, 0x74u8],
        20 => seq![0x74u8, 0x68u8, 0x69u8, 0x73u8],
        21 => seq![0x62u8, 0x75u8, 0x74u8],
        22 => seq![0x68u8, 0x69u8, 0x73u8],
        23 => seq![0x62u8, 0x79u8],
        24 => seq![0x66u8, 0x72u8, 0x6fu8, 0x6du8],
        25 => seq![0x74u8, 0x68u8, 0x65u8, 0x79u8],
        26 => seq![0x77u8, 0x65u8],
        27 => seq![0x73u8, 0x61u8, 0x79u8],
        28 => seq![0x68u8, 0x65u8, 0x72u8],
        29 => seq![0x73u8, 0x68u8, 0x65u8],
        30 => seq![0x6fu8, 0x72u8],
        31 => seq![0x61u8, 0x6eu8],
        32 => seq![0x77u8, 0x69u8, 0x6cu8, 0x6cu8],
        33 => seq![0x6du8, 0x79u8],
        34 => seq![0x6fu8, 0x6eu8, 0x65u8],
        35 => seq![0x61u8, 0x6cu8, 0x6cu8],
        36 => seq![0x77u8, 0x6fu8, 0x75u8, 0x6cu8, 0x64u8],
        37 => seq![0x74u8, 0x68u8, 0x65u8, 0x72u8, 0x65u8],
        38 => seq![0x74u8, 0x68u8, 0x65u8, 0x69u8, 0x72u8],
        39 => seq![0x77u8, 0x68u8, 0x61u8, 0x74u8],
        40 => seq![0x73u8, 0x6fu8],
        41 => seq![0x75u8, 0x70u8],
        42 => seq![0x6fu8, 0x75u8, 0x74u8],
        43 => seq![0x69u8, 0x66u8],
        44 => seq![0x61u8, 0x62u8, 0x6fu8, 0x75u8, 0x74u8],
        45 => seq![0x77u8, 0x68u8, 0x6fu8],
        46 => seq![0x67u8, 0x65u8, 0x74u8],
        47 => seq![0x77u8, 0x68u8, 0x69u8, 0x63u8, 0x68u8],
        48 => seq![0x67u8, 0x6fu8],
        49 => seq![0x6du8, 0x65u8],
        50 => seq![0x77u8, 0x68u8, 0x65u8, 0x6eu8],
        51 => seq![0x6du8, 0x61u8, 0x6bu8, 0x65u8],
        52 => seq![0x63u8, 0x61u8, 0x6eu8],
        53 => seq![0x6cu8, 0x69u8, 0x6bu8, 0x65u8],
        54 => seq![0x74u8, 0x69u8, 0x6du8, 0x65u8],
        55 => seq![0x6eu8, 0x6fu8],
        56 => seq![0x6au8, 0x75u8, 0x73u8, 0x74u8],
        57 => seq![0x68u8, 0x69u8, 0x6du8],
        58 => seq![0x6bu8, 0x6eu8, 0x6fu8, 0x77u8],
        59 => seq![0x74u8, 0x61u8, 0x6bu8, 0x65u8],
        60 => seq![0x70u8, 0x65u8, 0x72u8, 0x73u8, 0x6fu8, 0x6eu8],
        61 => seq![0x69u8, 0x6eu8, 0x74u8, 0x6fu8],
        62 => seq![0x79u8, 0x65u8, 0x61u8, 0x72u8],
        63 => seq![0x79u8, 0x6fu8, 0x75u8, 0x72u8],
        64 => seq![0x67u8, 0x6fu8, 0x6fu8, 0x64u8],
        65 => seq![0x73u8, 0x6fu8, 0x6du8, 0x65u8],
        66 => seq![0x63u8, 0x6fu8, 0x75u8, 0x6cu8, 0x64u8],
        67 => seq![0x74u8, 0x68u8, 0x65u8, 0x6du8],
        68 => seq![0x73u8, 0x65u8, 0x65u8],
        69 => seq![0x6fu8, 0x74u8, 0x68u8, 0x65u8, 0x72u8],
        70 => seq![0x74u8, 0x68u8, 0x61u8, 0x6eu8],
        71 => seq![0x74u8, 0x68u8, 0x65u8, 0x6eu8],
        72 => seq![0x6eu8, 0x6fu8, 0x77u8],
        73 => seq![0x6cu8, 0x6fu8, 0x6fu8, 0x6bu8],
        74 => seq![0x6fu8, 0x6eu8, 0x6cu8, 0x79u8],
        75 => seq![0x63u8, 0x6fu8, 0x6du8, 0x65u8],
        76 => seq![0x69u8, 0x74u8, 0x73u8],
        77 => seq![0x6fu8, 0x76u8, 0x65u8, 0x72u8],
        78 => seq![0x74u8, 0x68u8, 0x69u8, 0x6eu8, 0x6bu8],
        _ => seq![0x61u8, 0x6cu8, 0x73u8, 0x6fu8],
    }
}

/// Every word is ASCII.
pub proof fn lemma_word_is_ascii(i: u32)
    ensures
        all_ascii(word_bytes(i)),
{
    reveal(word_bytes);
}

/// Put a word of the list behind what is there.
#[verifier::rlimit(50)]
fn put_word(out: &mut Vec<u8>, i: u32)
    requires
        i < WORDS,
    ensures
        final(out)@ == old(out)@ + word_bytes(i),
{
    reveal(word_bytes);
    match i {
        0 => {
            let w: [u8; 3] = [0x74, 0x68, 0x65];
            assert(w@ =~= word_bytes(i));
            put_bytes(out, w.as_slice());
        },
        1 => {
            let w: [u8; 2] = [0x62, 0x65];
            assert(w@ =~= word_bytes(i));
            put_bytes(out, w.as_slice());
        },
        2 => {
            let w: [u8; 2] = [0x74, 0x6f];
            assert(w@ =~= word_bytes(i));
            put_bytes(out, w.as_slice());
        },
        3 => {
            let w: [u8; 2] = [0x6f, 0x66];
            assert(w@ =~= word_bytes(i));
            put_bytes(out, w.as_slice());
        },
        4 => {
            let w: [u8; 3] = [0x61, 0x6e, 0x64];
            assert(w@ =~= word_bytes(i));
            put_bytes(out, w.as_slice());
        },
        5 => {
            let w: [u8; 1] = [0x61];
            assert(w@ =~= word_bytes(i));
            put_bytes(out, w.as_slice());
        },
        6 => {
            let w: [u8; 2] = [0x69, 0x6e];
            assert(w@ =~= word_bytes(i));
            put_bytes(out, w.as_slice());
        },
        7 => {
            let w: [u8; 4] = [0x74, 0x68, 0x61, 0x74];
            assert(w@ =~= word_bytes(i));
            put_bytes(out, w.as_slice());
        },
        8 => {
            let w: [u8; 4] = [0x68, 0x61, 0x76, 0x65];
            assert(w@ =~= word_bytes(i));
            put_bytes(out, w.as_slice());
        },
        9 => {
            let w: [u8; 1] = [0x49];
            assert(w@ =~= word_bytes(i));
            put_bytes(out, w.as_slice());
        },
        10 => {
            let w: [u8; 2] = [0x69, 0x74];
            assert(w@ =~= word_bytes(i));
            put_bytes(out, w.as_slice());
        },
        11 => {
            let w: [u8; 3] = [0x66, 0x6f, 0x72];
            assert(w@ =~= word_bytes(i));
            put_bytes(out, w.as_slice());
        },
        12 => {
            let w: [u8; 3] = [0x6e, 0x6f, 0x74];
            assert(w@ =~= word_bytes(i));
            put_bytes(out, w.as_slice());
        },
        13 => {
            let w: [u8; 2] = [0x6f, 0x6e];
            assert(w@ =~= word_bytes(i));
            put_bytes(out, w.as_slice());
        },
        14 => {
            let w: [u8; 4] = [0x77, 0x69, 0x74, 0x68];
            assert(w@ =~= word_bytes(i));
            put_bytes(out, w.as_slice());
        },
        15 => {
            let w: [u8; 2] = [0x68, 0x65];
            assert(w@ =~= word_bytes(i));
            put_bytes(out, w.as_slice());
        },
        16 => {
            let w: [u8; 2] = [0x61, 0x73];
            assert(w@ =~= word_bytes(i));
            put_bytes(out, w.as_slice());
        },
        17 => {
            let w: [u8; 3] = [0x79, 0x6f, 0x75];
            assert(w@ =~= word_bytes(i));
            put_bytes(out, w.as_slice());
        },
        18 => {
            let w: [u8; 2] = [0x64, 0x6f];
            assert(w@ =~= word_bytes(i));
            put_bytes(out, w.as_slice());
        },
        19 => {
            let w: [u8; 2] = [0x61, 0x74];
            assert(w@ =~= word_bytes(i));
            put_bytes(out, w.as_slice());
        },
        20 => {
            let w: [u8; 4] = [0x74, 0x68, 0x69, 0x73];
            assert(w@ =~= word_bytes(i));
            put_bytes(out, w.as_slice());
        },
        21 => {
            let w: [u8; 3] = [0x62, 0x75, 0x74];
            assert(w@ =~= word_bytes(i));
            put_bytes(out, w.as_slice());
        },
        22 => {
            let w: [u8; 3] = [0x68, 0x69, 0x73];
            assert(w@ =~= word_bytes(i));
            put_bytes(out, w.as_slice());
        },
        23 => {
            let w: [u8; 2] = [0x62, 0x79];
            assert(w@ =~= word_bytes(i));
            put_bytes(out, w.as_slice());
        },
        24 => {
            let w: [u8; 4] = [0x66, 0x72, 0x6f, 0x6d];
            assert(w@ =~= word_bytes(i));
            put_bytes(out, w.as_slice());
        },
        25 => {
            let w: [u8; 4] = [0x74, 0x68, 0x65, 0x79];
            assert(w@ =~= word_bytes(i));
            put_bytes(out, w.as_slice());
        },
        26 => {
            let w: [u8; 2] = [0x77, 0x65];
            assert(w@ =~= word_bytes(i));
            put_bytes(out, w.as_slice());
        },
        27 => {
            let w: [u8; 3] = [0x73, 0x61, 0x79];
            assert(w@ =~= word_bytes(i));
            put_bytes(out, w.as_slice());
        },
        28 => {
            let w: [u8; 3] = [0x68, 0x65, 0x72];
            assert(w@ =~= word_bytes(i));
            put_bytes(out, w.as_slice());
        },
        29 => {
            let w: [u8; 3] = [0x73, 0x68, 0x65];
            assert(w@ =~= word_bytes(i));
            put_bytes(out, w.as_slice());
        },
        30 => {
            let w: [u8; 2] = [0x6f, 0x72];
            assert(w@ =~= word_bytes(i));
            put_bytes(out, w.as_slice());
        },
        31 => {
            let w: [u8; 2] = [0x61, 0x6e];
            assert(w@ =~= word_bytes(i));
            put_bytes(out, w.as_slice());
        },
        32 => {
            let w: [u8; 4] = [0x77, 0x69, 0x6c, 0x6c];
            assert(w@ =~= word_bytes(i));
            put_bytes(out, w.as_slice());
        },
        33 => {
            let w: [u8; 2] = [0x6d, 0x79];
            assert(w@ =~= word_bytes(i));
            put_bytes(out, w.as_slice());
        },
        34 => {
            let w: [u8; 3] = [0x6f, 0x6e, 0x65];
            assert(w@ =~= word_bytes(i));
            put_bytes(out, w.as_slice());
        },
        35 => {
            let w: [u8; 3] = [0x61, 0x6c, 0x6c];
            assert(w@ =~= word_bytes(i));
            put_bytes(out, w.as_slice());
        },
        36 => {
            let w: [u8; 5] = [0x77, 0x6f, 0x75, 0x6c, 0x64];
            assert(w@ =~= word_bytes(i));
            put_bytes(out, w.as_slice());
        },
        37 => {
            let w: [u8; 5] = [0x74, 0x68, 0x65, 0x72, 0x65];
            assert(w@ =~= word_bytes(i));
            put_bytes(out, w.as_slice());
        },
        38 => {
            let w: [u8; 5] = [0x74, 0x68, 0x65, 0x69, 0x72];
            assert(w@ =~= word_bytes(i));
            put_bytes(out, w.as_slice());
        },
        39 => {
            let w: [u8; 4] = [0x77, 0x68, 0x61, 0x74];
            assert(w@ =~= word_bytes(i));
            put_bytes(out, w.as_slice());
        },
        40 => {
            let w: [u8; 2] = [0x73, 0x6f];
            assert(w@ =~= word_bytes(i));
            put_bytes(out, w.as_slice());
        },
        41 => {
            let w: [u8; 2] = [0x75, 0x70];
            assert(w@ =~= word_bytes(i));
            put_bytes(out, w.as_slice());
        },
        42 => {
            let w: [u8; 3] = [0x6f, 0x75, 0x74];
            assert(w@ =~= word_bytes(i));
            put_bytes(out, w.as_slice());
        },
        43 => {
            let w: [u8; 2] = [0x69, 0x66];
            assert(w@ =~= word_bytes(i));
            put_bytes(out, w.as_slice());
        },
        44 => {
            let w: [u8; 5] = [0x61, 0x62, 0x6f, 0x75, 0x74];
            assert(w@ =~= word_bytes(i));
            put_bytes(out, w.as_slice());
        },
        45 => {
            let w: [u8; 3] = [0x77, 0x68, 0x6f];
            assert(w@ =~= word_bytes(i));
            put_bytes(out, w.as_slice());
        },
        46 => {
            let w: [u8; 3] = [0x67, 0x65, 0x74];
            assert(w@ =~= word_bytes(i));
            put_bytes(out, w.as_slice());
        },
        47 => {
            let w: [u8; 5] = [0x77, 0x68, 0x69, 0x63, 0x68];
            assert(w@ =~= word_bytes(i));
            put_bytes(out, w.as_slice());
        },
        48 => {
            let w: [u8; 2] = [0x67, 0x6f];
            assert(w@ =~= word_bytes(i));
            put_bytes(out, w.as_slice());
        },
        49 => {
            let w: [u8; 2] = [0x6d, 0x65];
            assert(w@ =~= word_bytes(i));
            put_bytes(out, w.as_slice());
        },
        50 => {
            let w: [u8; 4] = [0x77, 0x68, 0x65, 0x6e];
            assert(w@ =~= word_bytes(i));
            put_bytes(out, w.as_slice());
        },
        51 => {
            let w: [u8; 4] = [0x6d, 0x61, 0x6b, 0x65];
            assert(w@ =~= word_bytes(i));
            put_bytes(out, w.as_slice());
        },
        52 => {
            let w: [u8; 3] = [0x63, 0x61, 0x6e];
            assert(w@ =~= word_bytes(i));
            put_bytes(out, w.as_slice());
        },
        53 => {
            let w: [u8; 4] = [0x6c, 0x69, 0x6b, 0x65];
            assert(w@ =~= word_bytes(i));
            put_bytes(out, w.as_slice());
        },
        54 => {
            let w: [u8; 4] = [0x74, 0x69, 0x6d, 0x65];
            assert(w@ =~= word_bytes(i));
            put_bytes(out, w.as_slice());
        },
        55 => {
            let w: [u8; 2] = [0x6e, 0x6f];
            assert(w@ =~= word_bytes(i));
            put_bytes(out, w.as_slice());
        },
        56 => {
            let w: [u8; 4] = [0x6a, 0x75, 0x73, 0x74];
            assert(w@ =~= word_bytes(i));
            put_bytes(out, w.as_slice());
        },
        57 => {
            let w: [u8; 3] = [0x68, 0x69, 0x6d];
            assert(w@ =~= word_bytes(i));
            put_bytes(out, w.as_slice());
        },
        58 => {
            let w: [u8; 4] = [0x6b, 0x6e, 0x6f, 0x77];
            assert(w@ =~= word_bytes(i));
            put_bytes(out, w.as_slice());
        },
        59 => {
            let w: [u8; 4] = [0x74, 0x61, 0x6b, 0x65];
            assert(w@ =~= word_bytes(i));
            put_bytes(out, w.as_slice());
        },
        60 => {
            let w: [u8; 6] = [0x70, 0x65, 0x72, 0x73, 0x6f, 0x6e];
            assert(w@ =~= word_bytes(i));
            put_bytes(out, w.as_slice());
        },
        61 => {
            let w: [u8; 4] = [0x69, 0x6e, 0x74, 0x6f];
            assert(w@ =~= word_bytes(i));
            put_bytes(out, w.as_slice());
        },
        62 => {
            let w: [u8; 4] = [0x79, 0x65, 0x61, 0x72];
            assert(w@ =~= word_bytes(i));
            put_bytes(out, w.as_slice());
        },
        63 => {
            let w: [u8; 4] = [0x79, 0x6f, 0x75, 0x72];
            assert(w@ =~= word_bytes(i));
            put_bytes(out, w.as_slice());
        },
        64 => {
            let w: [u8; 4] = [0x67, 0x6f, 0x6f, 0x64];
            assert(w@ =~= word_bytes(i));
            put_bytes(out, w.as_slice());
        },
        65 => {
            let w: [u8; 4] = [0x73, 0x6f, 0x6d, 0x65];
            assert(w@ =~= word_bytes(i));
            put_bytes(out, w.as_slice());
        },
        66 => {
            let w: [u8; 5] = [0x63, 0x6f, 0x75, 0x6c, 0x64];
            assert(w@ =~= word_bytes(i));
            put_bytes(out, w.as_slice());
        },
        67 => {
            let w: [u8; 4] = [0x74, 0x68, 0x65, 0x6d];
            assert(w@ =~= word_bytes(i));
            put_bytes(out, w.as_slice());
        },
        68 => {
            let w: [u8; 3] = [0x73, 0x65, 0x65];
            assert(w@ =~= word_bytes(i));
            put_bytes(out, w.as_slice());
        },
        69 => {
            let w: [u8; 5] = [0x6f, 0x74, 0x68, 0x65, 0x72];
            assert(w@ =~= word_bytes(i));
            put_bytes(out, w.as_slice());
        },
        70 => {
            let w: [u8; 4] = [0x74, 0x68, 0x61, 0x6e];
            assert(w@ =~= word_bytes(i));
            put_bytes(out, w.as_slice());
        },
        71 => {
            let w: [u8; 4] = [0x74, 0x68, 0x65, 0x6e];
            assert(w@ =~= word_bytes(i));
            put_bytes(out, w.as_slice());
        },
        72 => {
            let w: [u8; 3] = [0x6e, 0x6f, 0x77];
            assert(w@ =~= word_bytes(i));
            put_bytes(out, w.as_slice());
        },
        73 => {
            let w: [u8; 4] = [0x6c, 0x6f, 0x6f, 0x6b];
            assert(w@ =~= word_bytes(i));
            put_bytes(out, w.as_slice());
        },
        74 => {
            let w: [u8; 4] = [0x6f, 0x6e, 0x6c, 0x79];
            assert(w@ =~= word_bytes(i));
            put_bytes(out, w.as_slice());
        },
        75 => {
            let w: [u8; 4] = [0x63, 0x6f, 0x6d, 0x65];
            assert(w@ =~= word_bytes(i));
            put_bytes(out, w.as_slice());
        },
        76 => {
            let w: [u8; 3] = [0x69, 0x74, 0x73];
            assert(w@ =~= word_bytes(i));
            put_bytes(out, w.as_slice());
        },
        77 => {
            let w: [u8; 4] = [0x6f, 0x76, 0x65, 0x72];
            assert(w@ =~= word_bytes(i));
            put_bytes(out, w.as_slice());
        },
        78 => {
            let w: [u8; 5] = [0x74, 0x68, 0x69, 0x6e, 0x6b];
            assert(w@ =~= word_bytes(i));
            put_bytes(out, w.as_slice());
        },
        _ => {
            let w: [u8; 4] = [0x61, 0x6c, 0x73, 0x6f];
            assert(w@ =~= word_bytes(i));
            put_bytes(out, w.as_slice());
        },
    }
}

/// The number that follows `state` in the sequence of the generator.
#[verifier::opaque]
pub open spec fn lcg_next(state: u32) -> u32 {
    ((state as int * 1103515245 + 12345) % 0x8000_0000) as u32
}

/// Simple random number generator.
pub struct SimpleRandom {
    pub state: u32,
}

impl SimpleRandom {
    pub fn new(index: u32) -> (r: SimpleRandom)
        ensures
            r.state == index,
    {
        SimpleRandom { state: index }
    }

    /// Go on to the next number of the sequence, and give what is left of it
    /// when it is divided by `limit`.
    pub fn next(&mut self, limit: u32) -> (r: u32)
        requires
            limit > 0,
        ensures
            final(self).state == lcg_next(old(self).state),
            r == final(self).state % limit,
    {
        reveal(lcg_next);
        let t: u64 = (self.state as u64 * 1103515245 + 12345) % 0x8000_0000;
        self.state = t as u32;
        self.state % limit
    }
}

/// A text, grown by a blank and a word at a time until it has `size` bytes
/// at least.  The generator says which word comes next.
#[verifier::opaque]
pub open spec fn grown(text: Seq<u8>, state: u32, size: nat) -> Seq<u8>
    decreases
        (if text.len() < size {
            size - text.len()
        } else {
            0
        }),
{
    if text.len() >= size {
        text
    } else {
        let next = lcg_next(state);
        grown(text + seq![0x20u8] + word_bytes((next % WORDS) as u32), next, size)
    }
}

/// The text that is made for a size and an index: the index and the size in
/// decimal with a hyphen between them, then words of the list with a blank
/// before each, all cut off after `size` bytes.
pub open spec fn random_bytes(size: u32, index: u32) -> Seq<u8> {
    grown(
        decimal_digits(index as nat) + seq![0x2du8] + decimal_digits(size as nat),
        index,
        size as nat,
    ).take(size as int)
}

/// What is grown is as long as was asked for, at least.
pub proof fn lemma_grown(text: Seq<u8>, state: u32, size: nat)
    requires
        all_ascii(text),
    ensures
        grown(text, state, size).len() >= size,
        all_ascii(grown(text, state, size)),
    decreases
        (if text.len() < size {
            size - text.len()
        } else {
            0
        }),
{
    reveal(grown);
    if text.len() < size {
        let next = lcg_next(state);
        let word = word_bytes((next % WORDS) as u32);
        let more = text + seq![0x20u8] + word;
        lemma_word_is_ascii((next % WORDS) as u32);
        assert(all_ascii(more)) by {
            assert forall|i: int| 0 <= i < more.len() implies more[i] < 0x80 by {
                if i < text.len() {
                    assert(more[i] == text[i]);
                } else if i > text.len() {
                    assert(more[i] == word[i - text.len() - 1]);
                }
            }
        }
        lemma_grown(more, next, size);
    }
}

/// A text that is too short yet grows by a blank and the next word.
pub proof fn lemma_grown_step(text: Seq<u8>, state: u32, size: nat)
    requires
        text.len() < size,
    ensures
        grown(text, state, size) == grown(
            text + seq![0x20u8] + word_bytes((lcg_next(state) % WORDS) as u32),
            lcg_next(state),
            size,
        ),
{
    reveal(grown);
}

/// Construct a random text of a given size and index, as bytes.
pub fn make_random_bytes(size: u32, index: u32) -> (r: Vec<u8>)
    ensures
        r@ == random_bytes(size, index),
        r@.len() == size,
        all_ascii(r@),
{
    let mut result = decimal(index);
    result.push(0x2d);
    let digits = decimal(size);
    put_bytes(&mut result, digits.as_slice());
    proof {
        lemma_decimal_digits(index as nat);
        lemma_decimal_digits(size as nat);
    }
    let ghost first = result@;
    assert(first =~= decimal_digits(index as nat) + seq![0x2du8] + decimal_digits(size as nat));
    let mut gen = SimpleRandom::new(index);
    while result.len() < size as usize
        invariant
            grown(result@, gen.state, size as nat) == grown(first, index, size as nat),
        decreases
            (if result@.len() < size {
                size - result@.len()
            } else {
                0
            }),
    {
        let ghost before = result@;
        let ghost state = gen.state;
        let w = gen.next(WORDS);
        result.push(0x20);
        put_word(&mut result, w);
        proof {
            let after = before + seq![0x20u8] + word_bytes(w);
            assert(result@ =~= after);
            lemma_grown_step(before, state, size as nat);
        }
    }
    proof {
        lemma_grown(first, index, size as nat);
        reveal(grown);
        assert(grown(result@, gen.state, size as nat) == result@);
    }
    result.truncate(size as usize);
    assert(result@ =~= random_bytes(size, index));
    assert(all_ascii(result@)) by {
        let whole = grown(first, index, size as nat);
        assert forall|i: int| 0 <= i < result@.len() implies result@[i] < 0x80 by {
            assert(result@[i] == whole[i]);
        }
    }
    result
}

/// Construct a random string of a given size and index.
pub fn make_random_string(size: u32, index: u32) -> (r: String)
    ensures
        r@ == ascii_chars(random_bytes(size, index)),
        r@.len() == size,
{
    ascii_string(make_random_bytes(size, index))
}

/// "blob", the kind of a chunk of plain data.
pub const BLOB: u32 = 0x626f_6c62;

/// Make a random chunk.
pub fn make_random_chunk(size: u32, index: u32) -> (c: Chunk)
    requires
        size <= MAX_PAYLOAD,
    ensures
        c.wf(),
        c.genuine(),
        c.spec_kind() == Kind(BLOB),
        c.spec_data_len() == size,
        c.payload() == Some(random_bytes(size, index)),
        c.packed() == deflated(random_bytes(size, index)),
{
    make_kinded_random_chunk(Kind(BLOB), size, index)
}

pub fn make_kinded_random_chunk(kind: Kind, size: u32, index: u32) -> (c: Chunk)
    requires
        size <= MAX_PAYLOAD,
    ensures
        c.wf(),
        c.genuine(),
        c.spec_kind() == kind,
        c.spec_data_len() == size,
        c.payload() == Some(random_bytes(size, index)),
        c.packed() == deflated(random_bytes(size, index)),
{
    Chunk::new_plain(kind, make_random_bytes(size, index))
}

/// Two to the power of `i`.
pub open spec fn two_to(i: nat) -> nat
    decreases i,
{
    if i == 0 {
        1
    } else {
        2 * two_to((i - 1) as nat)
    }
}

/// Is `n` one of the first `upto` powers of two, or one more or one less
/// than such a power?
pub open spec fn is_boundary_upto(n: u32, upto: nat) -> bool {
    exists|i: nat| i < upto && (n == #[trigger] two_to(i) - 1 || n == two_to(i) || n == two_to(i) + 1)
}

/// Is `n` a power of two below two to the 19th, or one more or one less
/// than such a power?
pub open spec fn is_boundary(n: u32) -> bool {
    is_boundary_upto(n, 19)
}

/// Generate a useful series of sizes, build around powers of two and
/// values 1 greater or less than them.  They come in ascending order, each
/// once.
pub fn boundary_sizes() -> (r: Vec<u32>)
    ensures
        rising(r@),
        forall|n: u32| #[trigger] r@.contains(n) <==> is_boundary(n),
{
    let mut nums: BTreeSet<u32> = BTreeSet::new();
    let mut bit: u32 = 1;
    let mut i: u32 = 0;
    while i < 19
        invariant
            i <= 19,
            bit == two_to(i as nat),
            1 <= bit <= 0x8_0000,
            i < 19 ==> bit <= 0x4_0000,
            forall|n: u32| #[trigger] nums@.contains(n) <==> is_boundary_upto(n, i as nat),
        decreases 19 - i,
    {
        put(&mut nums, bit - 1);
        put(&mut nums, bit);
        put(&mut nums, bit + 1);
        proof {
            assert forall|n: u32| #[trigger] nums@.contains(n) <==> is_boundary_upto(n, (i + 1) as nat) by {
                if is_boundary_upto(n, (i + 1) as nat) {
                    let k = choose|k: nat|
                        k < i + 1 && (n == #[trigger] two_to(k) - 1 || n == two_to(k) || n == two_to(k) + 1);
                    if k < i {
                        assert(is_boundary_upto(n, i as nat));
                    }
                }
                if is_boundary_upto(n, i as nat) {
                    let k = choose|k: nat|
                        k < i && (n == #[trigger] two_to(k) - 1 || n == two_to(k) || n == two_to(k) + 1);
                    assert(k < i + 1);
                }
                if n == bit - 1 || n == bit || n == bit + 1 {
                    assert(n == two_to(i as nat) - 1 || n == two_to(i as nat) || n == two_to(i as nat) + 1);
                }
            }
            lemma_two_to_bound((i + 1) as nat);
        }
        i += 1;
        bit = bit * 2;
    }
    ascending(&nums)
}

/// The powers of two up to the 19th.
pub proof fn lemma_two_to_bound(i: nat)
    requires
        i <= 19,
    ensures
        two_to(i) <= 0x8_0000,
        i < 19 ==> two_to(i) <= 0x4_0000,
    decreases i,
{
    reveal_with_fuel(two_to, 20);
}

} // verus!
