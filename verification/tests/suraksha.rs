use lipi::suraksha::{bahumat, crc32, hamming_koot, hamming_vikod, try_hamming_koot, try_hamming_vikod};

#[test]
fn hamming_encodes_with_parity() {
    assert_eq!(hamming_koot(&[1, 0, 1, 1]), vec![0, 1, 1, 0, 0, 1, 1]);
    assert_eq!(hamming_koot(&[0, 0, 0, 0]), vec![0, 0, 0, 0, 0, 0, 0]);
}

#[test]
fn hamming_roundtrip_all_data() {
    for v in 0u8..16 {
        let d = [v & 1, (v >> 1) & 1, (v >> 2) & 1, (v >> 3) & 1];
        assert_eq!(hamming_vikod(&hamming_koot(&d)), d.to_vec());
    }
}

#[test]
fn hamming_corrects_every_single_flip() {
    for v in 0u8..16 {
        let d = [v & 1, (v >> 1) & 1, (v >> 2) & 1, (v >> 3) & 1];
        let c = hamming_koot(&d);
        for i in 0..7 {
            let mut f = c.clone();
            f[i] ^= 1;
            assert_eq!(hamming_vikod(&f), d.to_vec(), "data {:?}, bit {}", d, i);
        }
    }
}

#[test]
fn crc32_of_text() {
    assert_eq!(crc32("123456789"), 0xCBF4_3926);
    assert_eq!(crc32(""), 0);
}

#[test]
fn majority_vote() {
    assert_eq!(bahumat("1", "1", "2"), Ok(0));
    assert_eq!(bahumat("1", "2", "1"), Ok(0));
    assert_eq!(bahumat("1", "2", "2"), Ok(1));
    assert_eq!(bahumat("1", "2", "3").unwrap_err(), "बहुमत(): तीनों मान भिन्न — कोई बहुमत नहीं");
}

#[test]
fn checked_hamming_refuses_bad_lists() {
    assert_eq!(try_hamming_vikod(&[0, 1, 2, 0, 0, 0, 0]).unwrap_err(), "हैमिंग_विकोड(): बिट 0 या 1 होना चाहिए");
    assert_eq!(try_hamming_vikod(&[0, 1]).unwrap_err(), "हैमिंग_विकोड(): 7 बिट की सूची अपेक्षित");
    assert_eq!(try_hamming_koot(&[1, 0, 1]).unwrap_err(), "हैमिंग_कूट(): 4 बिट की सूची अपेक्षित");
    assert_eq!(try_hamming_koot(&[1, 0, 3, 1]).unwrap_err(), "हैमिंग_कूट(): बिट 0 या 1 होना चाहिए");
    let c = try_hamming_koot(&[1, 0, 1, 1]).unwrap();
    assert_eq!(try_hamming_vikod(&c).unwrap(), vec![1, 0, 1, 1]);
}
