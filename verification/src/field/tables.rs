//! Discrete exponential and logarithm tables of GF(2^8), base 3.

use super::math;
use vstd::prelude::*;

verus! {

/// `EXP_TABLE[i]` is the generator 3 raised to the power `i`, for two turns round the cycle.
pub const EXP_TABLE: [u8; 512] = [
    0x01, 0x03, 0x05, 0x0f, 0x11, 0x33, 0x55, 0xff, 0x1a, 0x2e, 0x72, 0x96, 0xa1, 0xf8, 0x13, 0x35,
    0x5f, 0xe1, 0x38, 0x48, 0xd8, 0x73, 0x95, 0xa4, 0xf7, 0x02, 0x06, 0x0a, 0x1e, 0x22, 0x66, 0xaa,
    0xe5, 0x34, 0x5c, 0xe4, 0x37, 0x59, 0xeb, 0x26, 0x6a, 0xbe, 0xd9, 0x70, 0x90, 0xab, 0xe6, 0x31,
    0x53, 0xf5, 0x04, 0x0c, 0x14, 0x3c, 0x44, 0xcc, 0x4f, 0xd1, 0x68, 0xb8, 0xd3, 0x6e, 0xb2, 0xcd,
    0x4c, 0xd4, 0x67, 0xa9, 0xe0, 0x3b, 0x4d, 0xd7, 0x62, 0xa6, 0xf1, 0x08, 0x18, 0x28, 0x78, 0x88,
    0x83, 0x9e, 0xb9, 0xd0, 0x6b, 0xbd, 0xdc, 0x7f, 0x81, 0x98, 0xb3, 0xce, 0x49, 0xdb, 0x76, 0x9a,
    0xb5, 0xc4, 0x57, 0xf9, 0x10, 0x30, 0x50, 0xf0, 0x0b, 0x1d, 0x27, 0x69, 0xbb, 0xd6, 0x61, 0xa3,
    0xfe, 0x19, 0x2b, 0x7d, 0x87, 0x92, 0xad, 0xec, 0x2f, 0x71, 0x93, 0xae, 0xe9, 0x20, 0x60, 0xa0,
    0xfb, 0x16, 0x3a, 0x4e, 0xd2, 0x6d, 0xb7, 0xc2, 0x5d, 0xe7, 0x32, 0x56, 0xfa, 0x15, 0x3f, 0x41,
    0xc3, 0x5e, 0xe2, 0x3d, 0x47, 0xc9, 0x40, 0xc0, 0x5b, 0xed, 0x2c, 0x74, 0x9c, 0xbf, 0xda, 0x75,
    0x9f, 0xba, 0xd5, 0x64, 0xac, 0xef, 0x2a, 0x7e, 0x82, 0x9d, 0xbc, 0xdf, 0x7a, 0x8e, 0x89, 0x80,
    0x9b, 0xb6, 0xc1, 0x58, 0xe8, 0x23, 0x65, 0xaf, 0xea, 0x25, 0x6f, 0xb1, 0xc8, 0x43, 0xc5, 0x54,
    0xfc, 0x1f, 0x21, 0x63, 0xa5, 0xf4, 0x07, 0x09, 0x1b, 0x2d, 0x77, 0x99, 0xb0, 0xcb, 0x46, 0xca,
    0x45, 0xcf, 0x4a, 0xde, 0x79, 0x8b, 0x86, 0x91, 0xa8, 0xe3, 0x3e, 0x42, 0xc6, 0x51, 0xf3, 0x0e,
    0x12, 0x36, 0x5a, 0xee, 0x29, 0x7b, 0x8d, 0x8c, 0x8f, 0x8a, 0x85, 0x94, 0xa7, 0xf2, 0x0d, 0x17,
    0x39, 0x4b, 0xdd, 0x7c, 0x84, 0x97, 0xa2, 0xfd, 0x1c, 0x24, 0x6c, 0xb4, 0xc7, 0x52, 0xf6, 0x01,
    0x03, 0x05, 0x0f, 0x11, 0x33, 0x55, 0xff, 0x1a, 0x2e, 0x72, 0x96, 0xa1, 0xf8, 0x13, 0x35, 0x5f,
    0xe1, 0x38, 0x48, 0xd8, 0x73, 0x95, 0xa4, 0xf7, 0x02, 0x06, 0x0a, 0x1e, 0x22, 0x66, 0xaa, 0xe5,
    0x34, 0x5c, 0xe4, 0x37, 0x59, 0xeb, 0x26, 0x6a, 0xbe, 0xd9, 0x70, 0x90, 0xab, 0xe6, 0x31, 0x53,
    0xf5, 0x04, 0x0c, 0x14, 0x3c, 0x44, 0xcc, 0x4f, 0xd1, 0x68, 0xb8, 0xd3, 0x6e, 0xb2, 0xcd, 0x4c,
    0xd4, 0x67, 0xa9, 0xe0, 0x3b, 0x4d, 0xd7, 0x62, 0xa6, 0xf1, 0x08, 0x18, 0x28, 0x78, 0x88, 0x83,
    0x9e, 0xb9, 0xd0, 0x6b, 0xbd, 0xdc, 0x7f, 0x81, 0x98, 0xb3, 0xce, 0x49, 0xdb, 0x76, 0x9a, 0xb5,
    0xc4, 0x57, 0xf9, 0x10, 0x30, 0x50, 0xf0, 0x0b, 0x1d, 0x27, 0x69, 0xbb, 0xd6, 0x61, 0xa3, 0xfe,
    0x19, 0x2b, 0x7d, 0x87, 0x92, 0xad, 0xec, 0x2f, 0x71, 0x93, 0xae, 0xe9, 0x20, 0x60, 0xa0, 0xfb,
    0x16, 0x3a, 0x4e, 0xd2, 0x6d, 0xb7, 0xc2, 0x5d, 0xe7, 0x32, 0x56, 0xfa, 0x15, 0x3f, 0x41, 0xc3,
    0x5e, 0xe2, 0x3d, 0x47, 0xc9, 0x40, 0xc0, 0x5b, 0xed, 0x2c, 0x74, 0x9c, 0xbf, 0xda, 0x75, 0x9f,
    0xba, 0xd5, 0x64, 0xac, 0xef, 0x2a, 0x7e, 0x82, 0x9d, 0xbc, 0xdf, 0x7a, 0x8e, 0x89, 0x80, 0x9b,
    0xb6, 0xc1, 0x58, 0xe8, 0x23, 0x65, 0xaf, 0xea, 0x25, 0x6f, 0xb1, 0xc8, 0x43, 0xc5, 0x54, 0xfc,
    0x1f, 0x21, 0x63, 0xa5, 0xf4, 0x07, 0x09, 0x1b, 0x2d, 0x77, 0x99, 0xb0, 0xcb, 0x46, 0xca, 0x45,
    0xcf, 0x4a, 0xde, 0x79, 0x8b, 0x86, 0x91, 0xa8, 0xe3, 0x3e, 0x42, 0xc6, 0x51, 0xf3, 0x0e, 0x12,
    0x36, 0x5a, 0xee, 0x29, 0x7b, 0x8d, 0x8c, 0x8f, 0x8a, 0x85, 0x94, 0xa7, 0xf2, 0x0d, 0x17, 0x39,
    0x4b, 0xdd, 0x7c, 0x84, 0x97, 0xa2, 0xfd, 0x1c, 0x24, 0x6c, 0xb4, 0xc7, 0x52, 0xf6, 0x01, 0x03,
];

/// `LOG_TABLE[a]` is the exponent below 255 with `3^LOG_TABLE[a] = a`, for nonzero `a`.
pub const LOG_TABLE: [u8; 256] = [
    0x00, 0x00, 0x19, 0x01, 0x32, 0x02, 0x1a, 0xc6, 0x4b, 0xc7, 0x1b, 0x68, 0x33, 0xee, 0xdf, 0x03,
    0x64, 0x04, 0xe0, 0x0e, 0x34, 0x8d, 0x81, 0xef, 0x4c, 0x71, 0x08, 0xc8, 0xf8, 0x69, 0x1c, 0xc1,
    0x7d, 0xc2, 0x1d, 0xb5, 0xf9, 0xb9, 0x27, 0x6a, 0x4d, 0xe4, 0xa6, 0x72, 0x9a, 0xc9, 0x09, 0x78,
    0x65, 0x2f, 0x8a, 0x05, 0x21, 0x0f, 0xe1, 0x24, 0x12, 0xf0, 0x82, 0x45, 0x35, 0x93, 0xda, 0x8e,
    0x96, 0x8f, 0xdb, 0xbd, 0x36, 0xd0, 0xce, 0x94, 0x13, 0x5c, 0xd2, 0xf1, 0x40, 0x46, 0x83, 0x38,
    0x66, 0xdd, 0xfd, 0x30, 0xbf, 0x06, 0x8b, 0x62, 0xb3, 0x25, 0xe2, 0x98, 0x22, 0x88, 0x91, 0x10,
    0x7e, 0x6e, 0x48, 0xc3, 0xa3, 0xb6, 0x1e, 0x42, 0x3a, 0x6b, 0x28, 0x54, 0xfa, 0x85, 0x3d, 0xba,
    0x2b, 0x79, 0x0a, 0x15, 0x9b, 0x9f, 0x5e, 0xca, 0x4e, 0xd4, 0xac, 0xe5, 0xf3, 0x73, 0xa7, 0x57,
    0xaf, 0x58, 0xa8, 0x50, 0xf4, 0xea, 0xd6, 0x74, 0x4f, 0xae, 0xe9, 0xd5, 0xe7, 0xe6, 0xad, 0xe8,
    0x2c, 0xd7, 0x75, 0x7a, 0xeb, 0x16, 0x0b, 0xf5, 0x59, 0xcb, 0x5f, 0xb0, 0x9c, 0xa9, 0x51, 0xa0,
    0x7f, 0x0c, 0xf6, 0x6f, 0x17, 0xc4, 0x49, 0xec, 0xd8, 0x43, 0x1f, 0x2d, 0xa4, 0x76, 0x7b, 0xb7,
    0xcc, 0xbb, 0x3e, 0x5a, 0xfb, 0x60, 0xb1, 0x86, 0x3b, 0x52, 0xa1, 0x6c, 0xaa, 0x55, 0x29, 0x9d,
    0x97, 0xb2, 0x87, 0x90, 0x61, 0xbe, 0xdc, 0xfc, 0xbc, 0x95, 0xcf, 0xcd, 0x37, 0x3f, 0x5b, 0xd1,
    0x53, 0x39, 0x84, 0x3c, 0x41, 0xa2, 0x6d, 0x47, 0x14, 0x2a, 0x9e, 0x5d, 0x56, 0xf2, 0xd3, 0xab,
    0x44, 0x11, 0x92, 0xd9, 0x23, 0x20, 0x2e, 0x89, 0xb4, 0x7c, 0xb8, 0x26, 0x77, 0x99, 0xe3, 0xa5,
    0x67, 0x4a, 0xed, 0xde, 0xc5, 0x31, 0xfe, 0x18, 0x0d, 0x63, 0x8c, 0x80, 0xc0, 0xf7, 0x70, 0x07,
];

/// The generator 3 raised to the power `n`.
pub open spec fn power_of_three(n: nat) -> u8
    decreases n,
{
    if n == 0 {
        1
    } else {
        math::gf_mul(3, power_of_three((n - 1) as nat))
    }
}

/// The first `n + 1` entries of the exponential table start at one and grow by a factor of 3.
spec fn exp_entries_step(n: nat) -> bool
    decreases n,
{
    n == 0 || (exp_entries_step((n - 1) as nat) && EXP_TABLE[n as int] == math::triple(
        EXP_TABLE[n - 1],
    ))
}

/// The logarithm of every nonzero byte below `n` names its place in the exponential table.
spec fn log_entries_match(n: nat) -> bool
    decreases n,
{
    n <= 1 || (log_entries_match((n - 1) as nat) && LOG_TABLE[n - 1] < 255
        && EXP_TABLE[LOG_TABLE[n - 1] as int] == n - 1)
}

proof fn lemma_exp_entries_step()
    ensures
        exp_entries_step(511),
{
    assert(
        math::triple(0x01) == 0x03 && math::triple(0x03) == 0x05 && math::triple(0x05) == 0x0f &&
        math::triple(0x0f) == 0x11 && math::triple(0x11) == 0x33 && math::triple(0x33) == 0x55 &&
        math::triple(0x55) == 0xff && math::triple(0xff) == 0x1a && math::triple(0x1a) == 0x2e &&
        math::triple(0x2e) == 0x72 && math::triple(0x72) == 0x96 && math::triple(0x96) == 0xa1 &&
        math::triple(0xa1) == 0xf8 && math::triple(0xf8) == 0x13 && math::triple(0x13) == 0x35 &&
        math::triple(0x35) == 0x5f && math::triple(0x5f) == 0xe1 && math::triple(0xe1) == 0x38 &&
        math::triple(0x38) == 0x48 && math::triple(0x48) == 0xd8 && math::triple(0xd8) == 0x73 &&
        math::triple(0x73) == 0x95 && math::triple(0x95) == 0xa4 && math::triple(0xa4) == 0xf7 &&
        math::triple(0xf7) == 0x02 && math::triple(0x02) == 0x06 && math::triple(0x06) == 0x0a &&
        math::triple(0x0a) == 0x1e && math::triple(0x1e) == 0x22 && math::triple(0x22) == 0x66 &&
        math::triple(0x66) == 0xaa && math::triple(0xaa) == 0xe5 && math::triple(0xe5) == 0x34 &&
        math::triple(0x34) == 0x5c && math::triple(0x5c) == 0xe4 && math::triple(0xe4) == 0x37 &&
        math::triple(0x37) == 0x59 && math::triple(0x59) == 0xeb && math::triple(0xeb) == 0x26 &&
        math::triple(0x26) == 0x6a && math::triple(0x6a) == 0xbe && math::triple(0xbe) == 0xd9 &&
        math::triple(0xd9) == 0x70 && math::triple(0x70) == 0x90 && math::triple(0x90) == 0xab &&
        math::triple(0xab) == 0xe6 && math::triple(0xe6) == 0x31 && math::triple(0x31) == 0x53 &&
        math::triple(0x53) == 0xf5 && math::triple(0xf5) == 0x04 && math::triple(0x04) == 0x0c &&
        math::triple(0x0c) == 0x14 && math::triple(0x14) == 0x3c && math::triple(0x3c) == 0x44 &&
        math::triple(0x44) == 0xcc && math::triple(0xcc) == 0x4f && math::triple(0x4f) == 0xd1 &&
        math::triple(0xd1) == 0x68 && math::triple(0x68) == 0xb8 && math::triple(0xb8) == 0xd3 &&
        math::triple(0xd3) == 0x6e && math::triple(0x6e) == 0xb2 && math::triple(0xb2) == 0xcd &&
        math::triple(0xcd) == 0x4c && math::triple(0x4c) == 0xd4 && math::triple(0xd4) == 0x67 &&
        math::triple(0x67) == 0xa9 && math::triple(0xa9) == 0xe0 && math::triple(0xe0) == 0x3b &&
        math::triple(0x3b) == 0x4d && math::triple(0x4d) == 0xd7 && math::triple(0xd7) == 0x62 &&
        math::triple(0x62) == 0xa6 && math::triple(0xa6) == 0xf1 && math::triple(0xf1) == 0x08 &&
        math::triple(0x08) == 0x18 && math::triple(0x18) == 0x28 && math::triple(0x28) == 0x78 &&
        math::triple(0x78) == 0x88 && math::triple(0x88) == 0x83 && math::triple(0x83) == 0x9e &&
        math::triple(0x9e) == 0xb9 && math::triple(0xb9) == 0xd0 && math::triple(0xd0) == 0x6b &&
        math::triple(0x6b) == 0xbd && math::triple(0xbd) == 0xdc && math::triple(0xdc) == 0x7f &&
        math::triple(0x7f) == 0x81 && math::triple(0x81) == 0x98 && math::triple(0x98) == 0xb3 &&
        math::triple(0xb3) == 0xce && math::triple(0xce) == 0x49 && math::triple(0x49) == 0xdb &&
        math::triple(0xdb) == 0x76 && math::triple(0x76) == 0x9a && math::triple(0x9a) == 0xb5 &&
        math::triple(0xb5) == 0xc4 && math::triple(0xc4) == 0x57 && math::triple(0x57) == 0xf9 &&
        math::triple(0xf9) == 0x10 && math::triple(0x10) == 0x30 && math::triple(0x30) == 0x50 &&
        math::triple(0x50) == 0xf0 && math::triple(0xf0) == 0x0b && math::triple(0x0b) == 0x1d &&
        math::triple(0x1d) == 0x27 && math::triple(0x27) == 0x69 && math::triple(0x69) == 0xbb &&
        math::triple(0xbb) == 0xd6 && math::triple(0xd6) == 0x61 && math::triple(0x61) == 0xa3 &&
        math::triple(0xa3) == 0xfe && math::triple(0xfe) == 0x19 && math::triple(0x19) == 0x2b &&
        math::triple(0x2b) == 0x7d && math::triple(0x7d) == 0x87 && math::triple(0x87) == 0x92 &&
        math::triple(0x92) == 0xad && math::triple(0xad) == 0xec && math::triple(0xec) == 0x2f &&
        math::triple(0x2f) == 0x71 && math::triple(0x71) == 0x93 && math::triple(0x93) == 0xae &&
        math::triple(0xae) == 0xe9 && math::triple(0xe9) == 0x20 && math::triple(0x20) == 0x60 &&
        math::triple(0x60) == 0xa0 && math::triple(0xa0) == 0xfb
    ) by (bit_vector);
    assert(
        math::triple(0xfb) == 0x16 && math::triple(0x16) == 0x3a && math::triple(0x3a) == 0x4e &&
        math::triple(0x4e) == 0xd2 && math::triple(0xd2) == 0x6d && math::triple(0x6d) == 0xb7 &&
        math::triple(0xb7) == 0xc2 && math::triple(0xc2) == 0x5d && math::triple(0x5d) == 0xe7 &&
        math::triple(0xe7) == 0x32 && math::triple(0x32) == 0x56 && math::triple(0x56) == 0xfa &&
        math::triple(0xfa) == 0x15 && math::triple(0x15) == 0x3f && math::triple(0x3f) == 0x41 &&
        math::triple(0x41) == 0xc3 && math::triple(0xc3) == 0x5e && math::triple(0x5e) == 0xe2 &&
        math::triple(0xe2) == 0x3d && math::triple(0x3d) == 0x47 && math::triple(0x47) == 0xc9 &&
        math::triple(0xc9) == 0x40 && math::triple(0x40) == 0xc0 && math::triple(0xc0) == 0x5b &&
        math::triple(0x5b) == 0xed && math::triple(0xed) == 0x2c && math::triple(0x2c) == 0x74 &&
        math::triple(0x74) == 0x9c && math::triple(0x9c) == 0xbf && math::triple(0xbf) == 0xda &&
        math::triple(0xda) == 0x75 && math::triple(0x75) == 0x9f && math::triple(0x9f) == 0xba &&
        math::triple(0xba) == 0xd5 && math::triple(0xd5) == 0x64 && math::triple(0x64) == 0xac &&
        math::triple(0xac) == 0xef && math::triple(0xef) == 0x2a && math::triple(0x2a) == 0x7e &&
        math::triple(0x7e) == 0x82 && math::triple(0x82) == 0x9d && math::triple(0x9d) == 0xbc &&
        math::triple(0xbc) == 0xdf && math::triple(0xdf) == 0x7a && math::triple(0x7a) == 0x8e &&
        math::triple(0x8e) == 0x89 && math::triple(0x89) == 0x80 && math::triple(0x80) == 0x9b &&
        math::triple(0x9b) == 0xb6 && math::triple(0xb6) == 0xc1 && math::triple(0xc1) == 0x58 &&
        math::triple(0x58) == 0xe8 && math::triple(0xe8) == 0x23 && math::triple(0x23) == 0x65 &&
        math::triple(0x65) == 0xaf && math::triple(0xaf) == 0xea && math::triple(0xea) == 0x25 &&
        math::triple(0x25) == 0x6f && math::triple(0x6f) == 0xb1 && math::triple(0xb1) == 0xc8 &&
        math::triple(0xc8) == 0x43 && math::triple(0x43) == 0xc5 && math::triple(0xc5) == 0x54 &&
        math::triple(0x54) == 0xfc && math::triple(0xfc) == 0x1f && math::triple(0x1f) == 0x21 &&
        math::triple(0x21) == 0x63 && math::triple(0x63) == 0xa5 && math::triple(0xa5) == 0xf4 &&
        math::triple(0xf4) == 0x07 && math::triple(0x07) == 0x09 && math::triple(0x09) == 0x1b &&
        math::triple(0x1b) == 0x2d && math::triple(0x2d) == 0x77 && math::triple(0x77) == 0x99 &&
        math::triple(0x99) == 0xb0 && math::triple(0xb0) == 0xcb && math::triple(0xcb) == 0x46 &&
        math::triple(0x46) == 0xca && math::triple(0xca) == 0x45 && math::triple(0x45) == 0xcf &&
        math::triple(0xcf) == 0x4a && math::triple(0x4a) == 0xde && math::triple(0xde) == 0x79 &&
        math::triple(0x79) == 0x8b && math::triple(0x8b) == 0x86 && math::triple(0x86) == 0x91 &&
        math::triple(0x91) == 0xa8 && math::triple(0xa8) == 0xe3 && math::triple(0xe3) == 0x3e &&
        math::triple(0x3e) == 0x42 && math::triple(0x42) == 0xc6 && math::triple(0xc6) == 0x51 &&
        math::triple(0x51) == 0xf3 && math::triple(0xf3) == 0x0e && math::triple(0x0e) == 0x12 &&
        math::triple(0x12) == 0x36 && math::triple(0x36) == 0x5a && math::triple(0x5a) == 0xee &&
        math::triple(0xee) == 0x29 && math::triple(0x29) == 0x7b && math::triple(0x7b) == 0x8d &&
        math::triple(0x8d) == 0x8c && math::triple(0x8c) == 0x8f && math::triple(0x8f) == 0x8a &&
        math::triple(0x8a) == 0x85 && math::triple(0x85) == 0x94 && math::triple(0x94) == 0xa7 &&
        math::triple(0xa7) == 0xf2 && math::triple(0xf2) == 0x0d && math::triple(0x0d) == 0x17 &&
        math::triple(0x17) == 0x39 && math::triple(0x39) == 0x4b && math::triple(0x4b) == 0xdd &&
        math::triple(0xdd) == 0x7c && math::triple(0x7c) == 0x84 && math::triple(0x84) == 0x97 &&
        math::triple(0x97) == 0xa2 && math::triple(0xa2) == 0xfd && math::triple(0xfd) == 0x1c &&
        math::triple(0x1c) == 0x24 && math::triple(0x24) == 0x6c && math::triple(0x6c) == 0xb4 &&
        math::triple(0xb4) == 0xc7 && math::triple(0xc7) == 0x52 && math::triple(0x52) == 0xf6 &&
        math::triple(0xf6) == 0x01
    ) by (bit_vector);
    reveal_with_fuel(exp_entries_step, 65);
    assert(exp_entries_step(64));
    assert(exp_entries_step(128));
    assert(exp_entries_step(192));
    assert(exp_entries_step(256));
    assert(exp_entries_step(320));
    assert(exp_entries_step(384));
    assert(exp_entries_step(448));
}

proof fn lemma_log_entries_match()
    ensures
        log_entries_match(256),
{
    reveal_with_fuel(log_entries_match, 65);
    assert(log_entries_match(64));
    assert(log_entries_match(128));
    assert(log_entries_match(192));
}

proof fn lemma_exp_prefix(n: nat, i: nat)
    requires
        exp_entries_step(n),
        i <= n,
        n < 512,
    ensures
        EXP_TABLE[i as int] == power_of_three(i),
    decreases n,
{
    if i < n {
        lemma_exp_prefix((n - 1) as nat, i);
    } else if n > 0 {
        lemma_exp_prefix((n - 1) as nat, (n - 1) as nat);
        math::lemma_triple(EXP_TABLE[n - 1]);
    }
}

proof fn lemma_log_prefix(n: nat, a: u8)
    requires
        log_entries_match(n),
        0 < a < n,
    ensures
        LOG_TABLE[a as int] < 255,
        EXP_TABLE[LOG_TABLE[a as int] as int] == a,
    decreases n,
{
    if a < n - 1 {
        lemma_log_prefix((n - 1) as nat, a);
    }
}

/// The exponential table holds the powers of 3.
pub proof fn lemma_exp_table(i: nat)
    requires
        i < 512,
    ensures
        EXP_TABLE[i as int] == power_of_three(i),
{
    lemma_exp_entries_step();
    lemma_exp_prefix(511, i);
}

/// The logarithm table inverts the powers of 3.
pub proof fn lemma_log_table(a: u8)
    requires
        a != 0,
    ensures
        LOG_TABLE[a as int] < 255,
        power_of_three(LOG_TABLE[a as int] as nat) == a,
{
    lemma_log_entries_match();
    lemma_log_prefix(256, a);
    lemma_exp_table(LOG_TABLE[a as int] as nat);
}

/// The powers of 3 repeat after 255 steps.
pub proof fn lemma_power_cycle()
    ensures
        power_of_three(255) == 1,
{
    lemma_exp_table(255);
}

/// Powers of 3 multiply by adding their exponents.
pub proof fn lemma_powers_multiply(i: nat, j: nat)
    ensures
        math::gf_mul(power_of_three(i), power_of_three(j)) == power_of_three(i + j),
    decreases i,
{
    if i == 0 {
        math::lemma_mul_units(power_of_three(j));
        math::lemma_mul_commutes(1, power_of_three(j));
    } else {
        lemma_powers_multiply((i - 1) as nat, j);
        math::lemma_mul_associates(3, power_of_three((i - 1) as nat), power_of_three(j));
    }
}

/// Every nonzero element has an inverse.
pub proof fn lemma_inverse(a: u8)
    requires
        a != 0,
    ensures
        math::gf_mul(a, math::gf_inv(a)) == 1,
        math::gf_mul(math::gf_inv(a), a) == 1,
        math::gf_inv(a) != 0,
{
    lemma_log_table(a);
    let l = LOG_TABLE[a as int] as nat;
    lemma_powers_multiply(l, (255 - l) as nat);
    lemma_power_cycle();
    math::lemma_inverse_unique(a, power_of_three((255 - l) as nat));
    math::lemma_mul_commutes(a, math::gf_inv(a));
    math::lemma_mul_units(a);
}

/// The field has no zero divisors.
pub proof fn lemma_no_zero_divisors(a: u8, b: u8)
    requires
        math::gf_mul(a, b) == 0,
    ensures
        a == 0 || b == 0,
{
    if a != 0 {
        lemma_inverse(a);
        math::lemma_mul_associates(math::gf_inv(a), a, b);
        math::lemma_mul_units(math::gf_inv(a));
        math::lemma_mul_units(b);
        math::lemma_mul_commutes(1, b);
    }
}

} // verus!
