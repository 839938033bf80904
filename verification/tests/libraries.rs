use stratamoto::libraries::library_paths;

#[test]
fn lddtree_lists_the_libraries_after_the_binary() {
    let output = "/bin/sh (interpreter => /lib64/ld-linux-x86-64.so.2)\n\
                  \x20   libc.so.6 => /lib/x86_64-linux-gnu/libc.so.6\n\
                  \x20   ld-linux-x86-64.so.2 => /lib64/ld-linux-x86-64.so.2\n";
    assert_eq!(
        library_paths(output, true),
        Some(vec![
            "/lib/x86_64-linux-gnu/libc.so.6".to_string(),
            "/lib64/ld-linux-x86-64.so.2".to_string(),
        ])
    );
}

#[test]
fn ldd_lists_the_loader_on_a_line_of_its_own() {
    let output = "\tlinux-vdso.so.1 (0x00007ffd)\n\
                  \tlibc.so.6 => /lib/x86_64-linux-gnu/libc.so.6 (0x00007f12)\n\
                  \t/lib64/ld-linux-x86-64.so.2 (0x00007f34)\n";
    assert_eq!(
        library_paths(output, false),
        Some(vec![
            "/lib/x86_64-linux-gnu/libc.so.6".to_string(),
            "/lib64/ld-linux-x86-64.so.2".to_string(),
        ])
    );
}

#[test]
fn ldd_without_a_loader_lists_nothing() {
    assert_eq!(library_paths("\tstatically linked\n", false), None);
    assert_eq!(
        library_paths("\tlibc.so.6 => /lib/libc.so.6 (0x1)\n", false),
        None
    );
    // lddtree has no loader line to miss.
    assert_eq!(library_paths("", true), Some(vec![]));
}

#[test]
fn a_name_the_loader_cannot_find_is_no_library() {
    let output = "\tlibfoo.so => not found\n\t/lib64/ld-linux-x86-64.so.2 (0x1)\n";
    assert_eq!(
        library_paths(output, false),
        Some(vec!["/lib64/ld-linux-x86-64.so.2".to_string()])
    );
}

#[test]
fn carriage_returns_and_a_missing_final_newline_split_lines_alike() {
    let output = "/bin/sh\r\n    libc.so.6 => /lib/libc.so.6\r\n    libm.so.6 => /lib/libm.so.6";
    assert_eq!(
        library_paths(output, true),
        Some(vec!["/lib/libc.so.6".to_string(), "/lib/libm.so.6".to_string()])
    );
}
