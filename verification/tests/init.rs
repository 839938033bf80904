use stratamoto::init::{boot_script, is_release_entry, Contents};

#[test]
fn the_boot_script_fetches_everything_and_wraps_the_pool() {
    let mut contents = Contents::new();
    contents.insert_file("libc.so.6".to_string());
    contents.insert_file("pool_sv2".to_string());
    contents.insert_executable("pool_sv2".to_string());
    let script = boot_script(&contents, "pool_setup_connection", "pool_sv2", "handler.so");

    assert!(script.contains("./hget libc.so.6 libc.so.6\n"));
    assert!(script.contains("chmod +x pool_sv2\n"));
    assert!(script.contains("tar -xf template-provider.tar -C template-provider\n"));
    assert!(script.contains("LD_PRELOAD=./handler.so ./pool_sv2 \"$@\"' >> ./pool_proxy\n"));
    assert!(script.contains("./pool_setup_connection ./pool_proxy > log.txt 2>&1\n"));
}

#[test]
fn files_are_fetched_in_order_each_once() {
    let mut contents = Contents::new();
    contents.insert_file("zeta".to_string());
    contents.insert_file("alpha".to_string());
    contents.insert_file("zeta".to_string());
    contents.add("mid".to_string(), true);
    let script = boot_script(&contents, "s", "p", "h");
    let alpha = script.find("./hget alpha alpha\n").unwrap();
    let mid = script.find("./hget mid mid\n").unwrap();
    let zeta = script.find("./hget zeta zeta\n").unwrap();
    assert!(alpha < mid && mid < zeta);
    assert_eq!(script.matches("./hget zeta zeta\n").count(), 1);
    assert!(script.contains("chmod +x mid\n"));
    assert!(!script.contains("chmod +x zeta\n"));
    assert!(script.ends_with("fuzzing agent ...\"\n"));
}

#[test]
fn only_bitcoin_releases_are_taken_from_a_template_provider_directory() {
    assert!(is_release_entry("bitcoin-31.0"));
    assert!(is_release_entry("bitcoin-"));
    assert!(!is_release_entry("bitcoin"));
    assert!(!is_release_entry("sv2-tp-1.1.0"));
    assert!(!is_release_entry(".locks"));
    assert!(!is_release_entry("Bitcoin-31.0"));
    assert!(!is_release_entry(""));
}
