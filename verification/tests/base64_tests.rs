use bettercurl::base64::base64_encode;

fn decode(t: &str) -> Vec<u8> {
    const A: &[u8] = b"ABCDEFGHIJKLMNOPQRSTUVWXYZabcdefghijklmnopqrstuvwxyz0123456789+/";
    let val = |c: u8| A.iter().position(|&x| x == c).unwrap() as u32;
    let b = t.as_bytes();
    let mut out = Vec::new();
    for g in b.chunks(4) {
        let n = (val(g[0]) << 18)
            | (val(g[1]) << 12)
            | (if g[2] == b'=' { 0 } else { val(g[2]) << 6 })
            | (if g[3] == b'=' { 0 } else { val(g[3]) });
        out.push((n >> 16) as u8);
        if g[2] != b'=' {
            out.push((n >> 8) as u8);
        }
        if g[3] != b'=' {
            out.push(n as u8);
        }
    }
    out
}

#[test]
fn base64_rfc4648_vectors() {
    assert_eq!(base64_encode(b""), "");
    assert_eq!(base64_encode(b"f"), "Zg==");
    assert_eq!(base64_encode(b"fo"), "Zm8=");
    assert_eq!(base64_encode(b"foo"), "Zm9v");
    assert_eq!(base64_encode(b"foob"), "Zm9vYg==");
    assert_eq!(base64_encode(b"fooba"), "Zm9vYmE=");
    assert_eq!(base64_encode(b"foobar"), "Zm9vYmFy");
}

#[test]
fn base64_basic_credentials() {
    assert_eq!(base64_encode(b"user:pass"), "dXNlcjpwYXNz");
    assert_eq!(base64_encode(b"admin:"), "YWRtaW46");
}

#[test]
fn base64_binary_roundtrip_and_length() {
    let data: Vec<u8> = (0u16..=255).map(|b| b as u8).collect();
    for n in 0..data.len() {
        let e = base64_encode(&data[..n]);
        assert_eq!(e.len(), 4 * ((n + 2) / 3));
        assert_eq!(decode(&e), data[..n].to_vec());
    }
    assert_eq!(base64_encode(&[0xff, 0xfe, 0xfd]), "//79");
}
