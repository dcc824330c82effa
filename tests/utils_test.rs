use orca_iot::utils::check_marker;
use orca_iot::utils::split_buffer;

#[test]
fn test_split_marker() {
    let marker = b'$';
    let data = &[1, 0, 2, 3, 4, 0, 5, marker, 6, 0, 7, 8, 9, 0, 10]
        .iter()
        .filter_map(|&b| if b != 0 { Some(b) } else { None })
        .collect::<Vec<u8>>();

    let (bytes, excess) = split_buffer(data, marker);

    assert_eq!(&[1, 2, 3, 4, 5], bytes.as_slice());

    assert_eq!(&[6, 7, 8, 9, 10], excess.as_slice())
}

#[test]
fn split_without_marker_keeps_everything() {
    let (bytes, excess) = split_buffer(&[1, 2, 3], b'$');
    assert_eq!(bytes, vec![1, 2, 3]);
    assert!(excess.is_empty());
}

#[test]
fn split_takes_the_first_of_two_markers() {
    let (bytes, excess) = split_buffer(b"ab$cd$ef", b'$');
    assert_eq!(bytes, b"ab".to_vec());
    assert_eq!(excess, b"cd$ef".to_vec());
}

#[test]
fn check_marker_finds_the_first() {
    assert_eq!(check_marker(b"xx$y$", b'$'), Some(2));
    assert_eq!(check_marker(b"$", b'$'), Some(0));
    assert_eq!(check_marker(b"", b'$'), None);
    assert_eq!(check_marker(b"abc", b'$'), None);
}
