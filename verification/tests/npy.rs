use guksu::recall::npy::{load_matrix, parse_npy};

/// A valid .npy file (version 1 or 2).
fn npy(version: u8, header: &str, data: &[f32]) -> Vec<u8> {
    raw_npy(version, header.as_bytes(), data)
}

fn raw_npy(version: u8, h: &[u8], data: &[f32]) -> Vec<u8> {
    let mut out = b"\x93NUMPY".to_vec();
    out.push(version);
    out.push(0);
    match version {
        1 => out.extend((h.len() as u16).to_le_bytes()),
        _ => out.extend((h.len() as u32).to_le_bytes()),
    }
    out.extend(h);
    for x in data {
        out.extend(x.to_le_bytes());
    }
    out
}

fn load(bytes: &[u8]) -> Result<(Vec<f32>, usize), String> {
    parse_npy(bytes).map(|(flat, dim)| (flat.into_iter().map(f32::from_bits).collect(), dim))
}

const DATA: [f32; 6] = [1.0, 2.0, 3.0, 4.0, 5.0, 6.0];

#[test]
fn parses_v1_and_v2_headers() {
    for v in [1u8, 2] {
        let bytes =
            npy(v, "{'descr': '<f4', 'fortran_order': False, 'shape': (2, 3), }      \n", &DATA);
        let (flat, dim) = load(&bytes).unwrap();
        assert_eq!(dim, 3);
        assert_eq!(flat, DATA);
    }
}

#[test]
fn tolerates_key_order_and_whitespace() {
    let bytes = npy(1, "{ 'shape':(2,3),'fortran_order' : False , 'descr':'<f4' }", &DATA);
    assert_eq!(load(&bytes).unwrap().1, 3);
    let dq = npy(1, "{\"descr\": \"<f4\", \"fortran_order\": False, \"shape\": (2, 3)}", &DATA);
    assert_eq!(load(&dq).unwrap().1, 3);
}

#[test]
fn rejects_wrong_dtype_order_and_shape() {
    let be = npy(1, "{'descr': '>f4', 'fortran_order': False, 'shape': (2, 3), }", &DATA);
    assert!(load(&be).unwrap_err().contains("<f4"));
    let f8 = npy(1, "{'descr': '<f8', 'fortran_order': False, 'shape': (2, 3), }", &DATA);
    assert!(load(&f8).unwrap_err().contains("<f4"));
    let fortran = npy(1, "{'descr': '<f4', 'fortran_order': True, 'shape': (2, 3), }", &DATA);
    assert!(load(&fortran).unwrap_err().contains("C-order"));
    let one_d = npy(1, "{'descr': '<f4', 'fortran_order': False, 'shape': (6,), }", &DATA);
    assert!(load(&one_d).unwrap_err().contains("reshape"));
    let short = npy(1, "{'descr': '<f4', 'fortran_order': False, 'shape': (4, 3), }", &DATA);
    assert!(load(&short).unwrap_err().contains("expected"));
}

#[test]
fn raw_loader_needs_dim_and_whole_rows() {
    let bytes: Vec<u8> = DATA.iter().flat_map(|x| x.to_le_bytes()).collect();
    assert!(load_matrix("raw.f32", &bytes, None).unwrap_err().contains("--dim"));
    assert!(load_matrix("raw.f32", &bytes, Some(4)).unwrap_err().contains("whole rows"));
    let (flat, dim) = load_matrix("raw.f32", &bytes, Some(3)).unwrap();
    let flat: Vec<f32> = flat.into_iter().map(f32::from_bits).collect();
    assert_eq!((flat, dim), (DATA.to_vec(), 3));
}

fn error(version: u8, header: &str) -> String {
    load(&npy(version, header, &DATA)).unwrap_err()
}

#[test]
fn every_refusal_has_its_message() {
    assert_eq!(load(b"\x93NUMPY\x01\x00\x00").unwrap_err(), "truncated .npy header");
    assert_eq!(load(b"\x93NUMPY\x01\x00\x05\x00{").unwrap_err(), "truncated v1 header");
    assert_eq!(load(b"\x93NUMPY\x02\x00\x05\x00").unwrap_err(), "truncated v2 header");
    assert_eq!(load(b"\x93NUMPY\x03\x00\x05\x00\x00\x00{").unwrap_err(), "truncated v2 header");
    assert_eq!(load(b"\x93NUMPY\x04\x00\x05\x00").unwrap_err(), "unsupported .npy version 4");
    assert_eq!(load(&raw_npy(1, b"{'descr': \xff}", &DATA)).unwrap_err(), "non-utf8 .npy header");
    assert_eq!(error(1, "{}"), "missing 'descr' in .npy header");
    assert_eq!(error(1, "{'descr': 3}"), "missing 'descr' in .npy header");
    assert_eq!(
        error(1, "{'descr': '>f4'}"),
        "expected descr '<f4' (little-endian f32), got \">f4\""
    );
    assert_eq!(error(1, "{'descr': '<f4'}"), "missing 'fortran_order'");
    assert_eq!(
        error(1, "{'descr': '<f4', 'fortran_order': True}"),
        "fortran_order: True is not supported (save C-order)"
    );
    assert_eq!(
        error(1, "{'descr': '<f4', 'fortran_order': \"x\"}"),
        "unparseable fortran_order \"\\\"x\\\"\""
    );
    assert_eq!(error(1, "{'descr': '<f4', 'fortran_order': False}"), "missing 'shape'");
    assert_eq!(
        error(1, "{'descr': '<f4', 'fortran_order': False, 'shape': 6}"),
        "unparseable shape \"6\""
    );
    assert_eq!(
        error(1, "{'descr': '<f4', 'fortran_order': False, 'shape': (2, x)}"),
        "bad shape element \"x\""
    );
    assert_eq!(
        error(1, "{'descr': '<f4', 'fortran_order': False, 'shape': (6,)}"),
        "expected 2-D shape (n, dim), got (6,) — reshape to (n, dim) before saving"
    );
    assert_eq!(
        error(1, "{'descr': '<f4', 'fortran_order': False, 'shape': (2, 0)}"),
        "dim must be > 0"
    );
    assert_eq!(
        error(1, "{'descr': '<f4', 'fortran_order': False, 'shape': (4, 3)}"),
        "data section is 24 bytes, expected 48 for shape (4, 3) f32"
    );
}

#[test]
fn loader_names_the_file() {
    let bytes = npy(1, "{}", &DATA);
    assert_eq!(
        load_matrix("a.npy", &bytes, Some(3)).unwrap_err(),
        "a.npy: missing 'descr' in .npy header"
    );
    assert_eq!(
        load_matrix("b", &[0u8; 20], Some(4)).unwrap_err(),
        "b: 20 bytes is not whole rows of dim 4 (row = 16 bytes)"
    );
    assert_eq!(load_matrix("b", &[], None).unwrap_err(), "b is not .npy; raw f32 files need --dim");
    let good = npy(2, "{'descr': '<f4', 'fortran_order': False, 'shape': (2, 3)}", &DATA);
    // The file's own dimension counts, not the one asked for.
    assert_eq!(load_matrix("c", &good, Some(7)).unwrap().1, 3);
}

#[test]
fn shape_elements_may_carry_a_sign_and_blanks() {
    let ok = npy(1, "{'descr': '<f4', 'fortran_order': False, 'shape': ( +2 ,, 3 )}", &DATA);
    assert_eq!(load(&ok).unwrap(), (DATA.to_vec(), 3));
}

#[test]
fn words_survive_their_bytes() {
    let words = [0u32, 1, 0x0102_0304, 0xFFFF_FFFF, 0x8000_0000];
    let bytes: Vec<u8> = words.iter().flat_map(|w| w.to_le_bytes()).collect();
    assert_eq!(load_matrix("w", &bytes, Some(5)).unwrap(), (words.to_vec(), 5));
}
