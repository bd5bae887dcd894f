use chunkvault::naming::{chunk_name, decimal_string, document_name};

#[test]
fn numbers_in_decimal() {
    assert_eq!(decimal_string(0), "0");
    assert_eq!(decimal_string(7), "7");
    assert_eq!(decimal_string(9), "9");
    assert_eq!(decimal_string(10), "10");
    assert_eq!(decimal_string(11), "11");
    assert_eq!(decimal_string(99), "99");
    assert_eq!(decimal_string(100), "100");
    assert_eq!(decimal_string(1234567890), "1234567890");
    assert_eq!(decimal_string(usize::MAX), usize::MAX.to_string());
}

#[test]
fn decimal_agrees_with_the_standard_library() {
    for n in 0usize..2000 {
        assert_eq!(decimal_string(n), n.to_string());
    }
}

#[test]
fn chunk_name_bears_location_index_and_suffix() {
    assert_eq!(chunk_name("dir", 0, "sfx"), "dir/0_sfx.bin");
    assert_eq!(chunk_name("dir", 10, "sfx"), "dir/10_sfx.bin");
    assert_eq!(
        chunk_name("out", 3, "67e55044-10b1-426f-9247-bb680e5fe0c8"),
        "out/3_67e55044-10b1-426f-9247-bb680e5fe0c8.bin"
    );
    assert_eq!(chunk_name("", 5, ""), "/5_.bin");
    assert_eq!(chunk_name("a/b", 42, "x"), "a/b/42_x.bin");
}

#[test]
fn chunk_names_with_different_indices_differ() {
    let mut names = Vec::new();
    for index in 0usize..200 {
        names.push(chunk_name("d", index, "same"));
    }
    for i in 0..names.len() {
        for j in 0..i {
            assert_ne!(names[i], names[j]);
        }
    }
    // an index is not taken for a part of the suffix, nor the other way round
    assert_ne!(chunk_name("d", 1, "1_x"), chunk_name("d", 11, "x"));
}

#[test]
fn document_name_bears_the_location() {
    assert_eq!(document_name("dir"), "keystore-dir.json");
    assert_eq!(document_name(""), "keystore-.json");
    assert_eq!(
        document_name("67e55044-10b1-426f-9247-bb680e5fe0c8"),
        "keystore-67e55044-10b1-426f-9247-bb680e5fe0c8.json"
    );
}
