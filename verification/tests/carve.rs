use mempe::pe::carve::carve_embedded;

fn host_with_embedded() -> Vec<u8> {
    let mut host = vec![0u8; 0x4000];
    write_min_pe(&mut host, 0);
    write_min_pe(&mut host, 0x2000);
    host
}

fn write_min_pe(bytes: &mut [u8], at: usize) {
    let put16 = |b: &mut [u8], o: usize, v: u16| b[o..o + 2].copy_from_slice(&v.to_le_bytes());
    let put32 = |b: &mut [u8], o: usize, v: u32| b[o..o + 4].copy_from_slice(&v.to_le_bytes());
    put16(bytes, at, 0x5a4d);
    put32(bytes, at + 0x3c, 0x80);
    put32(bytes, at + 0x80, 0x0000_4550);
    put16(bytes, at + 0x84, 0x8664);
    put16(bytes, at + 0x86, 1);
    put16(bytes, at + 0x94, 0xf0);
    put16(bytes, at + 0x96, 0x22);
    let optional = at + 0x98;
    put16(bytes, optional, 0x20b);
    put32(bytes, optional + 32, 0x1000);
    put32(bytes, optional + 36, 0x200);
    put32(bytes, optional + 56, 0x2000);
    put32(bytes, optional + 60, 0x200);
    put32(bytes, optional + 108, 16);
    let section = optional + 0xf0;
    bytes[section..section + 5].copy_from_slice(b".text");
    put32(bytes, section + 8, 0x1000);
    put32(bytes, section + 12, 0x1000);
    put32(bytes, section + 16, 0x200);
    put32(bytes, section + 20, 0x200);
    put32(bytes, section + 36, 0x6000_0020);
}

#[test]
fn carves_only_the_inner_pe_not_the_host() {
    let host = host_with_embedded();

    let found = carve_embedded(&host);

    assert_eq!(found.len(), 1);
    assert_eq!(found[0].offset, 0x2000);
    assert_eq!(found[0].extension, "exe");
}

#[test]
fn ignores_a_bare_mz_without_a_pe_header() {
    let mut bytes = vec![0u8; 0x400];
    bytes[0x100] = 0x4d;
    bytes[0x101] = 0x5a;

    assert!(carve_embedded(&bytes).is_empty());
}

#[test]
fn ignores_an_embedded_pe_with_a_conflicting_machine() {
    let mut host = vec![0u8; 0x4000];
    write_min_pe(&mut host, 0x2000);
    host[0x2000 + 0x84..0x2000 + 0x86].copy_from_slice(&0x1234u16.to_le_bytes());

    assert!(carve_embedded(&host).is_empty());
}

#[test]
fn ignores_an_embedded_pe_whose_section_exceeds_the_image() {
    let mut host = vec![0u8; 0x4000];
    write_min_pe(&mut host, 0x2000);
    let section_size = 0x2000 + 0x98 + 0xf0 + 8;
    host[section_size..section_size + 4].copy_from_slice(&0x9000u32.to_le_bytes());

    assert!(carve_embedded(&host).is_empty());
}

#[test]
fn ignores_dense_pseudo_random_noise() {
    let mut bytes = vec![0u8; 0x8000];
    let mut state = 0x1234_5678_9abc_def0u64;
    for byte in bytes.iter_mut() {
        state = state
            .wrapping_mul(6364136223846793005)
            .wrapping_add(1442695040888963407);
        *byte = (state >> 33) as u8;
    }

    assert!(carve_embedded(&bytes).is_empty());
}
