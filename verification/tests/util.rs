use nephrite4::util::{
    calc_id_buf, from_zbase32, hex_to_id, to_id, to_zbase32, zbase32_decode, zbase32_to_id,
};

#[test]
fn it_works() {
    assert_eq!(2 + 2, 4);
}

#[test]
fn test_to_zbase32() {
    assert_eq!(to_zbase32(&[245, 87, 189, 12]), "6im54dy");
    assert_eq!(to_zbase32(&[0x10, 0x11, 0x10]), "nyety");

    assert_eq!(
        to_zbase32(&[104, 101, 108, 108, 111, 44, 32, 119, 111, 114, 108, 100, 10]),
        "pb1sa5dxfoo8q551pt1yw"
    );
}

#[test]
fn test_from_zbase32() {
    assert_eq!(from_zbase32("6im54d"), &[245, 87, 189, 12]);
    assert_eq!(from_zbase32("nyety"), &[0x10, 0x11, 0x10, 0]);
    assert_eq!(
        from_zbase32("pb1sa5dxfoo8q551pt1yw"),
        &[104, 101, 108, 108, 111, 44, 32, 119, 111, 114, 108, 100, 10, 0]
    );
}

#[test]
fn zbase32_of_nothing_is_empty() {
    assert_eq!(to_zbase32(&[]), "");
    assert_eq!(from_zbase32(""), Vec::<u8>::new());
}

#[test]
fn zbase32_round_trip_adds_a_zero_unless_length_is_a_multiple_of_five() {
    for n in 0..40usize {
        let data: Vec<u8> = (0..n).map(|i| (i * 37 + 11) as u8).collect();
        let back = from_zbase32(&to_zbase32(&data));
        let mut want = data.clone();
        if n % 5 != 0 {
            want.push(0);
        }
        assert_eq!(back, want, "length {}", n);
    }
}

#[test]
fn zbase32_round_trip_of_every_byte_value() {
    for b in 0..=255u8 {
        let back = from_zbase32(&to_zbase32(&[b, !b, b, b ^ 0x5a, b]));
        assert_eq!(back, vec![b, !b, b, b ^ 0x5a, b]);
    }
}

#[test]
fn zbase32_of_an_id_has_52_characters() {
    let zero = [0u8; 32];
    assert_eq!(to_zbase32(&zero), "y".repeat(52));
    let ones = [255u8; 32];
    assert_eq!(to_zbase32(&ones), format!("{}o", "9".repeat(51)));
    let mut count = [0u8; 32];
    for (i, b) in count.iter_mut().enumerate() {
        *b = i as u8;
    }
    assert_eq!(to_zbase32(&count), "yyyoryarywdyqnyjbefoadeqbhebnrounoktcfaadrpbs8y7daxo");
    assert_eq!(zbase32_to_id(&to_zbase32(&count)), count);
    assert_eq!(zbase32_to_id(&to_zbase32(&ones)), ones);
}

#[test]
fn zbase32_reads_unknown_bytes_as_zero() {
    assert_eq!(from_zbase32("y"), vec![0]);
    assert_eq!(from_zbase32("!"), vec![0]);
    assert_eq!(from_zbase32("Y"), vec![0]);
    assert_eq!(from_zbase32("9"), vec![0xf8]);
    assert_eq!(from_zbase32("99"), vec![0xff, 0xc0]);
    // each byte of a character outside ASCII counts as one group
    assert_eq!(from_zbase32("\u{e9}"), vec![0, 0]);
    assert_eq!(zbase32_decode(&[0xc3, 0xa9]), vec![0, 0]);
}

#[test]
fn to_id_takes_32_bytes_and_fills_up_with_zeros() {
    assert_eq!(to_id(&[]), [0u8; 32]);
    let mut want = [0u8; 32];
    want[0] = 7;
    want[1] = 9;
    assert_eq!(to_id(&[7, 9]), want);
    let long: Vec<u8> = (1..=40).collect();
    let id = to_id(&long);
    assert_eq!(&id[..], &long[..32]);
}

#[test]
fn zbase32_to_id_of_short_text_is_filled_up() {
    let mut want = [0u8; 32];
    want[0] = 0x10;
    want[1] = 0x11;
    want[2] = 0x10;
    assert_eq!(zbase32_to_id("nyety"), want);
}

#[test]
fn calc_id_buf_is_sha256() {
    assert_eq!(
        hex::encode(calc_id_buf(b"")),
        "e3b0c44298fc1c149afbf4c8996fb92427ae41e4649b934ca495991b7852b855"
    );
    assert_eq!(
        hex::encode(calc_id_buf(b"abc")),
        "ba7816bf8f01cfea414140de5dae2223b00361a396177a9cb410ff61f20015ad"
    );
    assert_ne!(&calc_id_buf(b"abc")[..3], b"abc");
}

#[test]
fn hex_to_id_reads_64_digits_of_either_case() {
    let text = "BA7816bf8f01cfea414140de5dae2223b00361a396177a9cb410ff61f20015ad";
    let id = hex_to_id(text).unwrap();
    assert_eq!(id[0], 0xba);
    assert_eq!(id[1], 0x78);
    assert_eq!(id[31], 0xad);
    assert_eq!(hex_to_id(&text[..62]), None);
    assert_eq!(hex_to_id(&format!("{}00", text)), None);
    assert_eq!(hex_to_id(&text.replace('8', "g")), None);
    assert_eq!(hex_to_id(&text[..63]), None);
    assert_eq!(hex_to_id(""), None);
}
