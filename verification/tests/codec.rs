use wsmq::codec::{
    bytes_to_u64, concat_bytes, copy_bytes, dash_position, decode_key_nonce, i64to_vec,
    make_data_key, make_key, topic_key, u64to_vec, vectu64,
};

#[test]
fn nonce_bytes_are_big_endian() {
    assert_eq!(u64to_vec(0), vec![0, 0, 0, 0, 0, 0, 0, 0]);
    assert_eq!(u64to_vec(1), vec![0, 0, 0, 0, 0, 0, 0, 1]);
    assert_eq!(u64to_vec(258), vec![0, 0, 0, 0, 0, 0, 1, 2]);
    assert_eq!(u64to_vec(0x0102030405060708), vec![1, 2, 3, 4, 5, 6, 7, 8]);
    assert_eq!(u64to_vec(u64::MAX), vec![255; 8]);
}

#[test]
fn nonce_bytes_agree_with_std() {
    for n in [0u64, 1, 255, 256, 65535, 65536, 1 << 32, u64::MAX - 1, u64::MAX, 1234567890123] {
        assert_eq!(u64to_vec(n), n.to_be_bytes().to_vec());
        assert_eq!(vectu64(n.to_be_bytes().to_vec()), n);
    }
}

#[test]
fn day_bytes_are_twos_complement() {
    assert_eq!(i64to_vec(0), vec![0; 8]);
    assert_eq!(i64to_vec(86400), vec![0, 0, 0, 0, 0, 1, 0x51, 0x80]);
    assert_eq!(i64to_vec(-1), vec![255; 8]);
    assert_eq!(i64to_vec(i64::MIN), vec![0x80, 0, 0, 0, 0, 0, 0, 0]);
    assert_eq!(i64to_vec(i64::MAX), vec![0x7f, 255, 255, 255, 255, 255, 255, 255]);
    for n in [-86400i64, -2, 1, 1_700_000_000, i64::MIN + 1] {
        assert_eq!(i64to_vec(n), n.to_be_bytes().to_vec());
    }
}

#[test]
fn decoding_undoes_encoding() {
    for n in [0u64, 7, 300, 1 << 40, u64::MAX] {
        assert_eq!(vectu64(u64to_vec(n)), n);
    }
}

#[test]
fn byte_order_of_nonce_keys_is_numeric_order() {
    let values = [0u64, 1, 2, 255, 256, 257, 65535, 65536, 1 << 33, u64::MAX - 1, u64::MAX];
    for a in values {
        for b in values {
            assert_eq!(u64to_vec(a) < u64to_vec(b), a < b);
        }
    }
}

#[test]
fn main_key_is_topic_then_nonce() {
    assert_eq!(make_key("t", 1), vec![b't', 0, 0, 0, 0, 0, 0, 0, 1]);
    assert_eq!(make_key("", 2), vec![0, 0, 0, 0, 0, 0, 0, 2]);
    let key = make_key("news", 0x0a0b);
    assert_eq!(&key[..4], b"news");
    assert_eq!(&key[4..], &[0, 0, 0, 0, 0, 0, 0x0a, 0x0b]);
}

#[test]
fn main_key_takes_the_utf8_bytes_of_the_topic() {
    let key = make_key("é", 3);
    assert_eq!(key, vec![0xc3, 0xa9, 0, 0, 0, 0, 0, 0, 0, 3]);
}

#[test]
fn main_keys_of_one_topic_sort_by_nonce() {
    assert!(make_key("t", 1) < make_key("t", 2));
    assert!(make_key("t", 255) < make_key("t", 256));
    assert!(make_key("t", 1) < make_key("t", u64::MAX));
}

#[test]
fn data_key_joins_topic_and_uid_with_a_dash() {
    assert_eq!(make_data_key("t", "u1"), "t-u1");
    assert_eq!(make_data_key("", ""), "-");
    assert_eq!(make_data_key("a-b", "c"), "a-b-c");
    assert_eq!(make_data_key("é", "ü"), "é-ü");
}

#[test]
fn key_nonce_reads_the_last_eight_bytes() {
    assert_eq!(decode_key_nonce(&make_key("topic", 77)), 77);
    assert_eq!(decode_key_nonce(&make_key("", u64::MAX)), u64::MAX);
    assert_eq!(decode_key_nonce(&[1, 2]), 258);
    assert_eq!(decode_key_nonce(&[]), 0);
}

#[test]
fn bytes_to_u64_reads_a_window() {
    let s = [9u8, 0, 0, 1, 0, 9];
    assert_eq!(bytes_to_u64(&s, 1, 5), 256);
    assert_eq!(bytes_to_u64(&s, 2, 2), 0);
    assert_eq!(bytes_to_u64(&s, 0, 1), 9);
}

#[test]
fn dash_position_finds_the_first_dash() {
    assert_eq!(dash_position(b"t-u1"), 1);
    assert_eq!(dash_position(b"a-b-c"), 1);
    assert_eq!(dash_position(b"nodash"), 6);
    assert_eq!(dash_position(b""), 0);
    assert_eq!(dash_position(b"-x"), 0);
}

#[test]
fn topic_key_reads_the_topic_off_the_data_key() {
    assert_eq!(topic_key(&u64to_vec(5), b"t-u1"), make_key("t", 5));
    assert_eq!(topic_key(&u64to_vec(5), b"news-2024-x"), make_key("news", 5));
    assert_eq!(topic_key(&[1, 2], b"plain"), vec![b'p', b'l', b'a', b'i', b'n', 1, 2]);
}

#[test]
fn topic_with_a_dash_is_not_read_back_whole() {
    let data_key = make_data_key("a-b", "u");
    assert_ne!(topic_key(&u64to_vec(1), data_key.as_bytes()), make_key("a-b", 1));
    assert_eq!(topic_key(&u64to_vec(1), data_key.as_bytes()), make_key("a", 1));
}

#[test]
fn concat_and_copy() {
    assert_eq!(concat_bytes(b"ab", b"cd"), b"abcd".to_vec());
    assert_eq!(concat_bytes(b"", b""), Vec::<u8>::new());
    assert_eq!(copy_bytes(b"xyz"), b"xyz".to_vec());
}
