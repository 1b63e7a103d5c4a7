use bytes::BytesMut;
use ctcp::direction::{CtcpRx, CtcpTx};
use ctcp::frame::seal_frame;
use ctcp::prefix::write_length_prefix;
use rand::{rngs::SmallRng, SeedableRng};

struct Case {
    key: u32,
    short_only: bool,
    nonce: u8,
    k: u8,
    f: u8,
    data: Vec<u8>,
    wire: Vec<u8>,
}

fn receiver_in_mode(key: u32, short_only: bool) -> CtcpRx {
    let mut rx = CtcpRx::new(key);
    let mut tx = CtcpTx::new(key, SmallRng::seed_from_u64(0));
    while rx.short_only() != short_only {
        if let Ok(text) = tx.encode(&[0]) {
            rx.decode(&text).unwrap();
        }
    }
    rx
}

fn cases() -> Vec<Case> {
    vec![
        Case {
            key: 0x09362737,
            short_only: false,
            nonce: 0xd2,
            k: 0x4b,
            f: 0x41,
            data: vec![0x9b],
            wire: vec![
                0x4b, 0x26, 0x44, 0x3a, 0x29, 0x52, 0x79, 0x7d, 0x27, 0x7e, 0x42, 0x7e,
                0x2f, 0x30,
            ],
        },
        Case {
            key: 0x09362737,
            short_only: true,
            nonce: 0x5e,
            k: 0x7b,
            f: 0x4f,
            data: vec![0xcf, 0x26],
            wire: vec![
                0x7b, 0x26, 0x46, 0x3a, 0x7e, 0x56, 0x7e, 0x3a, 0x7e, 0x2e, 0x58, 0x7d,
                0x35,
            ],
        },
        Case {
            key: 0x00000009,
            short_only: false,
            nonce: 0x4e,
            k: 0x6c,
            f: 0x2f,
            data: vec![0x55, 0x04, 0x3b, 0xb3, 0xad],
            wire: vec![
                0x6c, 0x2f, 0x35, 0x20, 0x22, 0x29, 0x66, 0x5c, 0x7e, 0x56, 0x7e, 0x59,
                0x20, 0x48, 0x50, 0x7d, 0x32, 0x7e, 0x53,
            ],
        },
        Case {
            key: 0x00001234,
            short_only: true,
            nonce: 0xef,
            k: 0x79,
            f: 0x62,
            data: vec![
                0xdd, 0x0c, 0x68, 0x5b, 0xbf, 0x4c, 0xae, 0x9a, 0x15, 0x2e, 0x1f, 0x07,
                0x33, 0x53, 0x00, 0x3c, 0x4c, 0x4d, 0xd3, 0x6a, 0x66, 0x35, 0xd1, 0xf9,
                0x76, 0x9f, 0xaf, 0xba, 0xa9, 0x5f, 0x69, 0xef, 0xf8, 0xd6, 0xfd, 0x3f,
                0xdb, 0xb5, 0x0e, 0xf1, 0xbf, 0x92, 0x42, 0x5e, 0x47, 0x60, 0x3a, 0xd5,
                0x37, 0x88, 0x26, 0xef, 0x6d, 0xaf, 0x0e, 0xd1, 0xdd, 0xaa, 0xda, 0x60,
                0x07, 0x54, 0xd1, 0xf5,
            ],
            wire: vec![
                0x7a, 0x62, 0x6c, 0x52, 0x7d, 0x4a, 0x7d, 0x7b, 0x7e, 0x3b, 0x7d, 0x61,
                0x7d, 0x60, 0x7d, 0x6b, 0x7d, 0x5c, 0x7d, 0x73, 0x7e, 0x65, 0x7d, 0x6d,
                0x7d, 0x5b, 0x79, 0x7e, 0x59, 0x7d, 0x5e, 0x7e, 0x4a, 0x7e, 0x3e, 0x7d,
                0x2f, 0x3f, 0x7e, 0x3e, 0x7d, 0x3f, 0x7e, 0x31, 0x5e, 0x7d, 0x38, 0x7e,
                0x3e, 0x7e, 0x63, 0x7e, 0x4e, 0x7e, 0x4a, 0x77, 0x7d, 0x26, 0x7e, 0x62,
                0x7d, 0x7c, 0x7e, 0x43, 0x7e, 0x44, 0x7e, 0x60, 0x6e, 0x7e, 0x21, 0x7d,
                0x79, 0x7e, 0x4b, 0x7d, 0x4d, 0x7e, 0x4e, 0x5a, 0x53, 0x41, 0x26, 0x7d,
                0x74, 0x3c, 0x7d, 0x7b, 0x7e, 0x49, 0x7e, 0x51, 0x7e, 0x58, 0x7e, 0x5f,
                0x7d, 0x6d, 0x53, 0x7d, 0x39, 0x23, 0x6e, 0x7d, 0x4d, 0x4d, 0x21, 0x7e,
                0x2e, 0x57, 0x7c, 0x7d, 0x49, 0x7e, 0x53, 0x7d, 0x42, 0x67, 0x7e, 0x56,
            ],
        },
        Case {
            key: 0xdeadbeef,
            short_only: false,
            nonce: 0xf4,
            k: 0x2c,
            f: 0x20,
            data: vec![
                0x67, 0x5c, 0x18, 0xaa, 0x6a, 0xea, 0xb7, 0x70, 0x54, 0xca, 0xe1, 0x0f,
                0x1d, 0x90, 0x9a, 0x2e, 0xaf, 0xfe, 0x0f, 0xcc, 0xa9, 0xf7, 0xab, 0x4a,
                0xb6, 0xc6, 0xb9, 0x53, 0xb3, 0x35, 0xf9, 0x85, 0xe9, 0x02, 0x55, 0xd6,
                0x8a, 0x04, 0xf3, 0x3c, 0x3f, 0xd6, 0x5c, 0x5f, 0xc5, 0x86, 0xb9, 0xd2,
                0x6d, 0xb2, 0x0b, 0x8d, 0xc4, 0x25, 0xea, 0xed, 0xe4, 0x13, 0xbe, 0x40,
                0xde, 0xd3, 0xc5, 0xc8, 0x43, 0x02, 0x9f, 0xbb, 0x74, 0x43, 0x9f, 0xf6,
                0x9e, 0x22, 0x16, 0x3d, 0xdb, 0xf2, 0x50, 0x59, 0x70, 0x77, 0x60, 0x0c,
                0x13, 0x49, 0x38, 0x28, 0x7e, 0xe6, 0xfb, 0x9d, 0xb1, 0x69, 0x2f, 0x2f,
                0x48, 0x9f, 0x0e, 0xbd, 0xe2, 0xd2, 0x8e, 0xe6, 0xf6, 0xf4, 0x0d, 0xb4,
                0x72, 0xcc, 0xc1, 0xcd, 0xca, 0x55, 0xac, 0xb1, 0xcf, 0x12, 0x60, 0x5f,
                0xe3, 0x6a, 0x19, 0xf1, 0xb2, 0x49, 0x00, 0x5c, 0xb5, 0x31, 0x2a, 0x37,
                0x52, 0x25, 0xea, 0xe3, 0x68, 0xc5, 0xe8, 0xbe, 0x98, 0xda, 0x13, 0x58,
                0x98, 0x51, 0x6c, 0xca, 0xe8, 0x46, 0x14, 0x9f, 0xfe, 0x0a, 0x69, 0x92,
                0x79, 0x8a, 0xa3, 0xb8, 0x4c, 0x4c, 0xc9, 0x3e, 0x6a, 0xb4, 0x8a, 0x29,
                0xd9, 0xec, 0x16, 0xe1, 0x4d, 0xde, 0x4d, 0x83, 0x38, 0x2c, 0xba, 0x6f,
                0x62, 0x5f, 0xaf, 0x31, 0xc6, 0xff, 0x6c, 0xca, 0xaa, 0xd3, 0x76, 0xbe,
                0x06, 0x3f, 0x01, 0x1b, 0xd6, 0xfa, 0x5d, 0xc9, 0x92, 0x22, 0x50, 0x99,
                0x58, 0xee, 0xb7, 0x3c, 0x86, 0x74, 0xf0, 0x6d, 0x86, 0x05, 0x9f, 0x0f,
                0xcf, 0xb8, 0xd0, 0x9d, 0xc8, 0x8c, 0xdb, 0x1b, 0x70, 0x2f, 0x9c, 0x07,
                0x08, 0xed, 0x85, 0x47, 0x0d, 0xd3, 0x6b, 0xa7, 0x48, 0x33, 0xc9, 0x00,
                0xb9, 0xb2, 0xad, 0x72, 0x48, 0x2f, 0x2e, 0xcc, 0x41, 0xdd, 0xcc, 0x61,
                0x0a, 0xce, 0xa1, 0x2a, 0x9e,
            ],
            wire: vec![
                0x2d, 0x7a, 0x2c, 0x35, 0x21, 0x24, 0x27, 0x36, 0x57, 0x32, 0x7d, 0x38,
                0x7e, 0x27, 0x7e, 0x25, 0x73, 0x7d, 0x3e, 0x7d, 0x23, 0x7e, 0x36, 0x7e,
                0x50, 0x66, 0x7d, 0x55, 0x4b, 0x7d, 0x5d, 0x7d, 0x55, 0x7d, 0x37, 0x7e,
                0x2b, 0x7e, 0x4b, 0x7e, 0x42, 0x7e, 0x4b, 0x7d, 0x40, 0x7e, 0x3a, 0x37,
                0x7e, 0x47, 0x34, 0x7d, 0x75, 0x7d, 0x37, 0x62, 0x7e, 0x34, 0x7d, 0x7a,
                0x7e, 0x48, 0x7e, 0x50, 0x21, 0x7e, 0x33, 0x7c, 0x7e, 0x4e, 0x7d, 0x3a,
                0x7e, 0x5e, 0x7d, 0x33, 0x30, 0x7e, 0x4e, 0x3a, 0x3e, 0x48, 0x62, 0x7e,
                0x5b, 0x7e, 0x27, 0x7d, 0x25, 0x7d, 0x3c, 0x7d, 0x6b, 0x75, 0x2e, 0x7c,
                0x7d, 0x5a, 0x7d, 0x46, 0x28, 0x23, 0x36, 0x2c, 0x7d, 0x54, 0x65, 0x7e,
                0x2d, 0x7e, 0x35, 0x70, 0x7d, 0x5a, 0x26, 0x35, 0x7d, 0x66, 0x77, 0x7d,
                0x3b, 0x69, 0x7d, 0x57, 0x36, 0x35, 0x20, 0x61, 0x7e, 0x24, 0x7d, 0x43,
                0x7e, 0x51, 0x2f, 0x41, 0x7d, 0x6c, 0x7e, 0x54, 0x69, 0x7e, 0x48, 0x7d,
                0x70, 0x7e, 0x5d, 0x7d, 0x3c, 0x7e, 0x35, 0x41, 0x4d, 0x7d, 0x56, 0x40,
                0x7d, 0x7a, 0x2f, 0x7e, 0x46, 0x7e, 0x58, 0x31, 0x7d, 0x61, 0x7e, 0x39,
                0x53, 0x7d, 0x22, 0x7d, 0x2b, 0x6a, 0x7e, 0x37, 0x7e, 0x3c, 0x67, 0x3c,
                0x7e, 0x5a, 0x36, 0x7e, 0x24, 0x7d, 0x69, 0x7d, 0x59, 0x2a, 0x7d, 0x35,
                0x7d, 0x2b, 0x3f, 0x24, 0x7e, 0x3e, 0x7d, 0x5b, 0x7d, 0x57, 0x7e, 0x40,
                0x78, 0x7d, 0x4f, 0x2d, 0x7e, 0x5f, 0x71, 0x7d, 0x58, 0x7d, 0x41, 0x5d,
                0x7d, 0x52, 0x7d, 0x65, 0x7d, 0x78, 0x44, 0x5b, 0x7e, 0x63, 0x7d, 0x49,
                0x7e, 0x35, 0x7d, 0x2d, 0x7e, 0x39, 0x7e, 0x2b, 0x7e, 0x24, 0x56, 0x7e,
                0x42, 0x7d, 0x44, 0x7d, 0x33, 0x31, 0x7e, 0x48, 0x46, 0x7d, 0x2e, 0x71,
                0x7e, 0x4b, 0x5b, 0x7d, 0x49, 0x29, 0x7e, 0x42, 0x5c, 0x48, 0x7e, 0x45,
                0x31, 0x7d, 0x35, 0x7e, 0x62, 0x7d, 0x26, 0x7d, 0x22, 0x70, 0x7e, 0x40,
                0x55, 0x5f, 0x7d, 0x5e, 0x7d, 0x59, 0x66, 0x7e, 0x63, 0x64, 0x4b, 0x50,
                0x7d, 0x24, 0x7a, 0x7d, 0x48, 0x7d, 0x56, 0x7e, 0x60, 0x21, 0x7e, 0x4a,
                0x7d, 0x44, 0x2a, 0x7e, 0x4e, 0x7d, 0x4a, 0x7e, 0x39, 0x7e, 0x3d, 0x7e,
                0x3c, 0x7d, 0x2e, 0x7d, 0x27, 0x2a, 0x7d, 0x24, 0x69, 0x7d, 0x57, 0x5c,
                0x7d, 0x3d, 0x7e, 0x2b, 0x6a, 0x2a, 0x7d, 0x4d, 0x7e, 0x2e, 0x55, 0x4e,
                0x3a, 0x7d, 0x3f, 0x72, 0x7d, 0x22, 0x77, 0x73, 0x2a, 0x6d, 0x49, 0x7d,
                0x5f, 0x5e, 0x62, 0x7e, 0x27, 0x7d, 0x64, 0x5b, 0x7d, 0x75, 0x7e, 0x63,
                0x7e, 0x32, 0x7e, 0x25, 0x68, 0x7d, 0x29, 0x71, 0x7e, 0x44, 0x7d, 0x55,
                0x7d, 0x53, 0x7e, 0x3b, 0x7d, 0x71, 0x7e, 0x31, 0x70, 0x2e, 0x7d, 0x59,
                0x7d, 0x72, 0x2e, 0x7d, 0x6e, 0x72, 0x7d, 0x57, 0x58, 0x7e, 0x24, 0x7d,
                0x33, 0x6d, 0x7d, 0x79, 0x7e, 0x2a, 0x7d, 0x31, 0x7d, 0x68, 0x7e, 0x52,
                0x7d, 0x76, 0x7d, 0x4f, 0x7e, 0x2d, 0x7e, 0x46, 0x7d, 0x77, 0x54, 0x7e,
                0x5f, 0x66, 0x7d, 0x4b, 0x39,
            ],
        },
        Case {
            key: 0xffffffff,
            short_only: true,
            nonce: 0x32,
            k: 0x41,
            f: 0x53,
            data: vec![
                0xc3, 0xd6, 0xf0, 0x55, 0x26, 0x49, 0x1a, 0x8f, 0xd1, 0xc3, 0x53, 0xf0,
                0x7f, 0x5e, 0xb5, 0x58, 0xc7, 0x40, 0x5f, 0x37, 0x23, 0xee, 0x64, 0xf7,
                0x92, 0x59, 0xaf, 0x28, 0x9d, 0x44, 0xe3, 0x02, 0x7b, 0xd8, 0xf0, 0x51,
                0x66, 0xe5, 0x11, 0xae, 0xb5, 0xf8, 0x3e, 0xa5, 0xc3, 0x66, 0xbb, 0x6e,
                0xe0, 0x43, 0xea, 0xd3, 0x4a, 0x48, 0x2a, 0x77, 0x88, 0xd4, 0x7b, 0x76,
                0x94, 0xd2, 0xc9, 0xeb, 0x5b, 0x52, 0xd7, 0x8d, 0xa3, 0xb3, 0x9c, 0x4f,
                0x02, 0xd2, 0xa5, 0x91, 0x1e, 0x12, 0xdd, 0xef, 0x00, 0x2b, 0xd6, 0x01,
                0xb1, 0xfd, 0x8c, 0x6b, 0xae, 0x02, 0xef, 0xfa, 0xec, 0xd7, 0xec, 0x4d,
                0xff, 0x67, 0x9d, 0x2d, 0xfe, 0x88, 0x45, 0xb4, 0x4c, 0x17, 0x2a, 0x07,
                0xb1, 0x1f, 0xd8, 0x73, 0x0c, 0x13, 0xda, 0x5a, 0x22, 0x3b, 0xbc, 0x99,
                0x79, 0x51, 0xbb, 0xc9, 0x98, 0x24, 0xa5, 0x13, 0x7e, 0xc4, 0x4b, 0xae,
                0x1a, 0xcc, 0x67, 0x72, 0xc9, 0xb5, 0x85, 0xca, 0xd8, 0x89, 0x56, 0x82,
                0xcb, 0x7d, 0xf8, 0xd1, 0x13, 0xc9, 0x7f, 0xdb, 0x79, 0x5c, 0x7e, 0x8f,
                0x18, 0x93, 0x96, 0x76, 0x94, 0xdd, 0xe8, 0x01, 0x59, 0x33, 0xb8, 0x76,
                0x4e, 0xf1, 0xa8, 0x57, 0x58, 0xb4, 0x86, 0xe8, 0x8a, 0x51, 0x27, 0xd9,
                0xa1, 0x2a, 0x76, 0x73, 0x8d, 0xda, 0xdc, 0xbe, 0xff, 0x30, 0x71, 0x59,
                0x62, 0x2b, 0xb6, 0x3c, 0xe2, 0x7a, 0x22, 0x2c, 0x4b, 0xb0, 0xdb, 0x02,
                0xab, 0x34, 0x27, 0xb9, 0x85, 0x0a, 0xeb, 0x95, 0xce, 0xa9, 0xf5, 0xff,
                0xb1, 0x98, 0x75, 0x09, 0x7a, 0xbc, 0xbc, 0xf0, 0x05, 0xa3, 0xf9, 0x1f,
                0xb9, 0xbd, 0xc4, 0x38, 0x41, 0x30, 0x02, 0xaa, 0x65, 0x7b, 0xe1, 0x16,
                0x4c, 0xb8, 0x57, 0xc4, 0xa9, 0x88, 0x71, 0x1f, 0xa4, 0x35, 0x2d, 0x36,
                0x1e, 0x83, 0xd8, 0x6e, 0x41, 0x5e, 0x96, 0x86, 0x30, 0x6a, 0x53, 0x99,
                0x10, 0xe5, 0xee, 0x2e, 0xf5, 0x8d, 0x51, 0xa3, 0xe1, 0x21, 0x8a, 0x1d,
                0xa2, 0x57, 0x40, 0x22, 0xcd, 0x36, 0x72, 0x5f, 0x1f, 0xd5, 0x82, 0x0c,
                0xd5, 0x72, 0x8f, 0x39, 0xc0, 0x75, 0xe9, 0xc2, 0xec, 0xf9, 0x54, 0x24,
            ],
            wire: vec![
                0x41, 0x22, 0x6d, 0x59, 0x54, 0x7d, 0x5e, 0x3b, 0x7d, 0x2b, 0x7d, 0x57,
                0x7e, 0x58, 0x7d, 0x4e, 0x7d, 0x3b, 0x7d, 0x5d, 0x74, 0x7d, 0x2f, 0x7e,
                0x41, 0x7e, 0x59, 0x7d, 0x54, 0x7d, 0x63, 0x7d, 0x39, 0x7e, 0x48, 0x7e,
                0x4c, 0x3e, 0x2b, 0x7e, 0x5e, 0x7d, 0x6e, 0x7e, 0x41, 0x7e, 0x3b, 0x56,
                0x7d, 0x4a, 0x7d, 0x55, 0x46, 0x56, 0x7e, 0x35, 0x7d, 0x47, 0x7d, 0x2f,
                0x5a, 0x7d, 0x69, 0x7d, 0x65, 0x60, 0x2e, 0x43, 0x7c, 0x34, 0x7d, 0x41,
                0x7d, 0x78, 0x7d, 0x4b, 0x36, 0x7e, 0x24, 0x7e, 0x25, 0x7d, 0x39, 0x7d,
                0x6a, 0x7d, 0x61, 0x7e, 0x32, 0x4e, 0x7d, 0x2b, 0x7d, 0x47, 0x26, 0x7d,
                0x2c, 0x7d, 0x51, 0x7e, 0x65, 0x7d, 0x26, 0x7e, 0x3a, 0x7d, 0x4f, 0x7e,
                0x3b, 0x7d, 0x61, 0x26, 0x7d, 0x62, 0x7e, 0x2d, 0x7e, 0x4c, 0x43, 0x7d,
                0x54, 0x7d, 0x23, 0x49, 0x7d, 0x23, 0x7e, 0x39, 0x31, 0x7e, 0x3a, 0x52,
                0x6e, 0x71, 0x6a, 0x7e, 0x5b, 0x7d, 0x3b, 0x2d, 0x52, 0x33, 0x7d, 0x4c,
                0x7d, 0x4c, 0x7d, 0x72, 0x7d, 0x34, 0x4d, 0x7d, 0x78, 0x32, 0x7d, 0x29,
                0x7e, 0x24, 0x7d, 0x30, 0x74, 0x36, 0x7e, 0x51, 0x7e, 0x60, 0x28, 0x7d,
                0x23, 0x7d, 0x22, 0x7e, 0x4a, 0x7e, 0x3d, 0x7d, 0x44, 0x3d, 0x33, 0x64,
                0x7e, 0x58, 0x29, 0x7a, 0x2e, 0x7e, 0x4a, 0x7d, 0x76, 0x77, 0x64, 0x7d,
                0x6d, 0x6c, 0x7d, 0x6e, 0x7d, 0x74, 0x44, 0x7d, 0x2d, 0x28, 0x7d, 0x3f,
                0x7e, 0x4a, 0x7d, 0x24, 0x7e, 0x4f, 0x7e, 0x41, 0x7d, 0x52, 0x72, 0x7d,
                0x58, 0x7d, 0x43, 0x7d, 0x3a, 0x7d, 0x3f, 0x7d, 0x7b, 0x36, 0x7d, 0x6b,
                0x2c, 0x4b, 0x7d, 0x6d, 0x36, 0x66, 0x7d, 0x38, 0x7e, 0x37, 0x7e, 0x26,
                0x2f, 0x50, 0x78, 0x7d, 0x78, 0x7e, 0x5f, 0x76, 0x6f, 0x4b, 0x7e, 0x31,
                0x47, 0x7d, 0x72, 0x7d, 0x28, 0x7d, 0x62, 0x7e, 0x44, 0x43, 0x7d, 0x53,
                0x7d, 0x57, 0x7d, 0x4d, 0x7e, 0x64, 0x7d, 0x24, 0x7e, 0x5b, 0x58, 0x7d,
                0x59, 0x7d, 0x3a, 0x7d, 0x67, 0x7d, 0x2e, 0x7d, 0x3b, 0x67, 0x7e, 0x2f,
                0x7e, 0x20, 0x4a, 0x56, 0x7e, 0x62, 0x7e, 0x4b, 0x7e, 0x39, 0x7e, 0x41,
                0x44, 0x7d, 0x43, 0x7d, 0x23, 0x53, 0x7d, 0x6f, 0x7d, 0x25, 0x7e, 0x3b,
                0x7e, 0x61, 0x6b, 0x7e, 0x40, 0x7d, 0x27, 0x2d, 0x7e, 0x5a, 0x7e, 0x21,
                0x21, 0x7e, 0x33, 0x7d, 0x4f, 0x7d, 0x6a, 0x7e, 0x2d, 0x7d, 0x62, 0x7d,
                0x66, 0x7e, 0x63, 0x7d, 0x5d, 0x7e, 0x53, 0x7d, 0x5b, 0x7d, 0x35, 0x7e,
                0x39, 0x7d, 0x5c, 0x62, 0x2f, 0x7d, 0x3a, 0x7d, 0x73, 0x7d, 0x29, 0x7e,
                0x5f, 0x57, 0x4f, 0x7e, 0x48, 0x2a, 0x6a, 0x68, 0x7d, 0x65, 0x7d, 0x3c,
                0x7d, 0x76, 0x2f, 0x5f, 0x7d, 0x25, 0x7d, 0x5d, 0x7e, 0x5e, 0x7e, 0x61,
                0x7e, 0x21, 0x7e, 0x56, 0x7d, 0x52, 0x7d, 0x70, 0x26, 0x7d, 0x56, 0x4e,
                0x7e, 0x42, 0x7e, 0x3c, 0x7d, 0x44, 0x7d, 0x62, 0x7d, 0x23, 0x61, 0x7d,
                0x68, 0x7d, 0x3b, 0x7e, 0x26, 0x7d, 0x6e, 0x7d, 0x49, 0x7e, 0x4e, 0x39,
                0x7e, 0x54, 0x7e, 0x2f, 0x7d, 0x74, 0x40, 0x76, 0x23, 0x36, 0x7d, 0x5f,
                0x7a, 0x7e, 0x43, 0x6f, 0x7e, 0x22, 0x56, 0x7d, 0x26, 0x49, 0x7c, 0x4a,
                0x54, 0x7d, 0x62, 0x7e, 0x3d, 0x7d, 0x49, 0x73, 0x7e, 0x64, 0x4c, 0x7e,
                0x4e, 0x20, 0x70, 0x7d, 0x2a, 0x7e, 0x5b, 0x46, 0x7d, 0x33, 0x7c, 0x7e,
                0x48, 0x7d, 0x3b, 0x37, 0x7d, 0x5b, 0x7d, 0x53, 0x7e, 0x4f, 0x3c, 0x7e,
                0x3f, 0x7d, 0x3f, 0x7e, 0x2e, 0x7d, 0x52, 0x7e, 0x50, 0x28, 0x7e, 0x2f,
                0x7e, 0x57, 0x7d, 0x76, 0x7d, 0x6e, 0x7e, 0x5e, 0x7d, 0x7a, 0x7d, 0x4d,
                0x6c, 0x7e, 0x62, 0x7e, 0x27,
            ],
        },
        Case {
            key: 0x00000001,
            short_only: true,
            nonce: 0xbb,
            k: 0x60,
            f: 0x57,
            data: vec![
                0xeb, 0x30, 0xca, 0x27, 0xc1, 0x0a, 0xec, 0x20, 0x64, 0x87, 0xf7, 0x74,
                0x48, 0xb4, 0x9f, 0x6b, 0x55, 0x13, 0x00, 0x0f, 0x71, 0x94, 0xf2, 0xb0,
                0x07, 0x63, 0xf5, 0xd3, 0xc0, 0x89, 0x8e, 0xb1, 0x06,
            ],
            wire: vec![
                0x60, 0x57, 0x5d, 0x20, 0x7d, 0x7c, 0x7e, 0x64, 0x7e, 0x45, 0x7d, 0x3c,
                0x54, 0x7d, 0x7b, 0x7d, 0x37, 0x7d, 0x54, 0x7e, 0x32, 0x2f, 0x5c, 0x7e,
                0x31, 0x66, 0x7d, 0x76, 0x7d, 0x63, 0x7d, 0x79, 0x30, 0x36, 0x3d, 0x7d,
                0x22, 0x7e, 0x20, 0x7e, 0x26, 0x2d, 0x6b, 0x7d, 0x6b, 0x7e, 0x31, 0x7d,
                0x36, 0x45, 0x7e, 0x3c, 0x7d, 0x31, 0x7d, 0x7b, 0x34, 0x7d, 0x2f, 0x26,
                0x7d, 0x34, 0x7d, 0x51,
            ],
        },
        Case {
            key: 0x000cac77,
            short_only: false,
            nonce: 0x39,
            k: 0x26,
            f: 0x48,
            data: vec![
                0xa1, 0xc0, 0xc3, 0x08, 0x50, 0x00, 0x6a, 0xe5, 0x67, 0x04, 0xc1, 0xbe,
                0x05, 0xdb, 0x7e, 0x00, 0x70,
            ],
            wire: vec![
                0x26, 0x48, 0x42, 0x20, 0x24, 0x45, 0x2f, 0x6b, 0x7d, 0x61, 0x7d, 0x5c,
                0x7c, 0x7d, 0x48, 0x52, 0x7d, 0x7b, 0x7e, 0x5e, 0x40, 0x7e, 0x59, 0x69,
                0x7d, 0x3c, 0x7e, 0x5c, 0x7d, 0x30, 0x7e, 0x50, 0x7e, 0x4a, 0x7e, 0x39,
                0x44, 0x7d, 0x6a, 0x7d, 0x27,
            ],
        },
    ]
}

#[test]
fn frames_with_given_picks_match_their_vectors() {
    for case in cases() {
        let mut working = BytesMut::new();
        let mut packet = BytesMut::new();
        let mut payload = BytesMut::new();
        seal_frame(&case.data, case.key, case.nonce, &mut working, &mut packet, &mut payload);
        let mut buffer = [0u8; 7];
        let mut short_only = case.short_only;
        let size = write_length_prefix(
            payload.len(),
            case.key,
            case.k,
            case.f,
            &mut buffer,
            &mut short_only,
        )
        .unwrap();
        assert_eq!(size, if case.short_only { 4 } else { 7 });
        let mut frame = buffer[..size].to_vec();
        frame.extend_from_slice(&payload);
        assert_eq!(frame, case.wire);
    }
}

#[test]
fn vectors_decode_to_their_frames() {
    for case in cases() {
        let mut rx = receiver_in_mode(case.key, case.short_only);
        assert_eq!(rx.decode(&case.wire).unwrap().as_ref(), &case.data[..]);
        assert!(rx.short_only());
    }
}
