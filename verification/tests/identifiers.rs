use wsbrd_cli::hex::format_byte_array;
use wsbrd_cli::order::{bytes_equal, copy_bytes, id_le};
use wsbrd_cli::sort::insert_id;

#[test]
fn format_empty_identifier() {
    assert_eq!(format_byte_array(&[]), "");
}

#[test]
fn format_single_byte_has_no_colon() {
    assert_eq!(format_byte_array(&[0xaa]), "aa");
    assert_eq!(format_byte_array(&[0x00]), "00");
    assert_eq!(format_byte_array(&[0x07]), "07");
}

#[test]
fn format_eight_byte_address() {
    let id = [0xaa, 0xbb, 0xcc, 0xdd, 0xee, 0xff, 0x00, 0x11];
    assert_eq!(format_byte_array(&id), "aa:bb:cc:dd:ee:ff:00:11");
}

#[test]
fn format_pads_and_uses_lower_case() {
    assert_eq!(format_byte_array(&[0x0f, 0xf0, 0x9a, 0xbc]), "0f:f0:9a:bc");
    assert_eq!(format_byte_array(&[0x01, 0x23, 0x45, 0x67, 0x89]), "01:23:45:67:89");
    assert_eq!(format_byte_array(&[0xde, 0xad]), "de:ad");
}

#[test]
fn format_every_byte_matches_two_digit_hex() {
    for b in 0u8..=255 {
        assert_eq!(format_byte_array(&[b]), format!("{:02x}", b));
    }
}

#[test]
fn bytes_equal_is_bytewise() {
    assert!(bytes_equal(&[], &[]));
    assert!(bytes_equal(&[1, 2, 3], &[1, 2, 3]));
    assert!(!bytes_equal(&[1, 2, 3], &[1, 2, 4]));
    assert!(!bytes_equal(&[1, 2], &[1, 2, 3]));
    assert!(!bytes_equal(&[1, 2, 3], &[1, 2]));
    assert!(!bytes_equal(&[0], &[]));
}

#[test]
fn id_le_first_difference_decides() {
    assert!(id_le(&[1, 9, 9], &[2, 0, 0]));
    assert!(!id_le(&[2, 0, 0], &[1, 9, 9]));
    assert!(id_le(&[1, 2, 3], &[1, 2, 4]));
    assert!(!id_le(&[1, 2, 4], &[1, 2, 3]));
    assert!(id_le(&[0x02], &[0x10]));
    assert!(!id_le(&[0x10], &[0x02]));
}

#[test]
fn id_le_prefix_comes_first() {
    assert!(id_le(&[], &[]));
    assert!(id_le(&[], &[0]));
    assert!(!id_le(&[0], &[]));
    assert!(id_le(&[1, 2], &[1, 2, 0]));
    assert!(!id_le(&[1, 2, 0], &[1, 2]));
}

#[test]
fn id_le_is_reflexive_and_total_on_samples() {
    let samples: Vec<Vec<u8>> = vec![
        vec![],
        vec![0],
        vec![0, 0],
        vec![1],
        vec![1, 0],
        vec![0xff],
        vec![0xfe, 0xff],
    ];
    for a in &samples {
        assert!(id_le(a, a));
        for b in &samples {
            assert!(id_le(a, b) || id_le(b, a));
            assert_eq!(id_le(a, b), a <= b);
            if id_le(a, b) && id_le(b, a) {
                assert_eq!(a, b);
            }
        }
    }
}

#[test]
fn copy_bytes_copies() {
    assert_eq!(copy_bytes(&[]), Vec::<u8>::new());
    assert_eq!(copy_bytes(&[5, 4, 3]), vec![5, 4, 3]);
}

#[test]
fn insert_id_keeps_order() {
    let mut v: Vec<Vec<u8>> = Vec::new();
    insert_id(&mut v, vec![0x02]);
    assert_eq!(v, vec![vec![0x02]]);
    insert_id(&mut v, vec![0x10]);
    assert_eq!(v, vec![vec![0x02], vec![0x10]]);
    insert_id(&mut v, vec![0x01]);
    assert_eq!(v, vec![vec![0x01], vec![0x02], vec![0x10]]);
    insert_id(&mut v, vec![0x02]);
    assert_eq!(v, vec![vec![0x01], vec![0x02], vec![0x02], vec![0x10]]);
    insert_id(&mut v, vec![0x02, 0x00]);
    assert_eq!(
        v,
        vec![vec![0x01], vec![0x02], vec![0x02], vec![0x02, 0x00], vec![0x10]]
    );
}
