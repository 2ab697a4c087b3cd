use recipedia::calendar::{time_hm_pub, time_utc};
use recipedia::digest::{public_key, sha256_hex, to_hex, verify_hmac};
use recipedia::digits::{decimal_text, padded_text, parse_u32, parse_up_to};
use recipedia::model::{canonical_arch, parse_dep, Dep, Dependency};
use recipedia::order::sorted_set;
use recipedia::path::{components, file_name, parent, path_join, path_set, sorted_paths};
use recipedia::split::{first_word, join, lines, split, trim, trim_end, trim_end_text};
use recipedia::table::Table;
use recipedia::text::{contains_text, ends_with, order_text, starts_with, strip_prefix, Side};
use recipedia::utf8::{read_lossy, read_utf8};

fn texts(of: &[&str]) -> Vec<String> {
    of.iter().map(|t| t.to_string()).collect()
}

#[test]
fn instants_are_written_in_utc() {
    assert_eq!(time_utc(0), "1970-01-01T00:00:00Z");
    assert_eq!(time_utc(1_700_000_000), "2023-11-14T22:13:20Z");
    assert_eq!(time_utc(951_782_400), "2000-02-29T00:00:00Z");
    assert_eq!(time_utc(951_868_799), "2000-02-29T23:59:59Z");
    assert_eq!(time_utc(-1), "1969-12-31T23:59:59Z");
    assert_eq!(time_utc(4_102_444_800), "2100-01-01T00:00:00Z");
    assert_eq!(time_utc(4_107_542_400), "2100-03-01T00:00:00Z");
    assert_eq!(time_hm_pub(1_700_000_000), "2023-11-14 22:13");
    assert_eq!(time_hm_pub(0), "1970-01-01 00:00");
    assert_eq!(time_hm_pub(119), time_hm_pub(60));
    assert_ne!(time_hm_pub(120), time_hm_pub(119));
    assert_eq!(time_hm_pub(-1), "1969-12-31 23:59");
    assert_eq!(time_hm_pub(-62_167_219_200), "0000-01-01 00:00");
    assert_eq!(time_hm_pub(253_402_300_799), "9999-12-31 23:59");
}

#[test]
fn hashes_are_those_of_their_standards() {
    assert_eq!(
        sha256_hex(b""),
        "e3b0c44298fc1c149afbf4c8996fb92427ae41e4649b934ca495991b7852b855"
    );
    assert_eq!(
        sha256_hex(b"abc"),
        "ba7816bf8f01cfea414140de5dae2223b00361a396177a9cb410ff61f20015ad"
    );
    assert_eq!(to_hex(&[0, 1, 15, 16, 171, 255]), "00010f10abff");
    assert_eq!(to_hex(&[]), "");
}

#[test]
fn signatures_are_checked() {
    // RFC 4231, test case 2.
    let good = "sha256=5bdcc146bf60754e6a042426089575c75a003f089d2739839dec58b964ec3843";
    let body = b"what do ya want for nothing?";
    assert!(verify_hmac("Jefe", good, body));
    assert!(!verify_hmac("Jefe", good, b"what do ya want for nothing!"));
    assert!(!verify_hmac("jefe", good, body));
    assert!(!verify_hmac("Jefe", &good[7..], body));
    assert!(!verify_hmac("Jefe", &good[..good.len() - 1], body));
    assert!(!verify_hmac("Jefe", &good.to_uppercase(), body));
    assert!(!verify_hmac("Jefe", "", body));
}

#[test]
fn public_keys_are_those_of_ed25519() {
    // RFC 8032, test 1.
    let private: [u8; 32] = [
        0x9d, 0x61, 0xb1, 0x9d, 0xef, 0xfd, 0x5a, 0x60, 0xba, 0x84, 0x4a, 0xf4, 0x92, 0xec, 0x2c,
        0xc4, 0x44, 0x49, 0xc5, 0x69, 0x7b, 0x32, 0x69, 0x19, 0x70, 0x3b, 0xac, 0x03, 0x1c, 0xae,
        0x7f, 0x60,
    ];
    assert_eq!(
        to_hex(&public_key(&private)),
        "d75a980182b10ab7d54bfed3c964073a0ee172f3daa62325af021a68f707511a"
    );
}

#[test]
fn numerals() {
    assert_eq!(decimal_text(0), "0");
    assert_eq!(decimal_text(1234567890), "1234567890");
    assert_eq!(padded_text(7, 4), "0007");
    assert_eq!(padded_text(-7, 4), "-007");
    assert_eq!(padded_text(12345, 4), "12345");
    assert_eq!(parse_u32("4294967295"), Some(u32::MAX));
    assert_eq!(parse_u32("4294967296"), None);
    assert_eq!(parse_u32("+5"), Some(5));
    assert_eq!(parse_u32("-5"), None);
    assert_eq!(parse_u32(""), None);
    assert_eq!(parse_u32("+"), None);
    assert_eq!(parse_up_to("10", 9), None);
    assert_eq!(parse_up_to("9", 9), Some(9));
}

#[test]
fn architectures_have_one_spelling() {
    assert_eq!(canonical_arch("x86_64"), "amd64");
    assert_eq!(canonical_arch(" arm64\n"), "aarch64");
    for arm in ["arm", "armhf", "armv7", "armv7l"] {
        assert_eq!(canonical_arch(arm), "armv7");
    }
    assert_eq!(canonical_arch("riscv64"), "riscv64");
    assert_eq!(canonical_arch(""), "");
    assert_eq!(canonical_arch(canonical_arch("x86_64")), "amd64");
}

#[test]
fn dependencies_are_shown() {
    let dep = |op: Option<&str>, version: Option<&str>| Dependency {
        name: "zlib".into(),
        op: op.map(str::to_string),
        version: version.map(str::to_string),
        text: "zlib".into(),
    };
    let shown = |op, version| Dep::from(&dep(op, version));
    assert_eq!(shown(None, None), Dep { name: "zlib".into(), req: "".into() });
    assert_eq!(shown(Some(">="), Some("1.3")), Dep { name: "zlib".into(), req: ">= 1.3".into() });
    assert_eq!(shown(Some(">="), None), Dep { name: "zlib".into(), req: ">=".into() });
    assert_eq!(shown(None, Some("1.3")), Dep { name: "zlib".into(), req: "".into() });
    assert_eq!(parse_dep("a b", None), Dep { name: "a b".into(), req: "".into() });
    assert_eq!(
        parse_dep("zlib>=1.3", Some(&dep(Some(">="), Some("1.3")))),
        Dep { name: "zlib".into(), req: ">= 1.3".into() }
    );
}

#[test]
fn texts_are_compared_and_cut() {
    assert_eq!(order_text("a", "b"), Side::Before);
    assert_eq!(order_text("b", "a"), Side::After);
    assert_eq!(order_text("a", "a"), Side::Same);
    assert_eq!(order_text("", "a"), Side::Before);
    assert_eq!(order_text("Z", "a"), Side::Before);
    assert!(contains_text("recipes", "cip"));
    assert!(contains_text("recipes", ""));
    assert!(!contains_text("rec", "recipes"));
    assert!(starts_with("--flag", "--"));
    assert!(!starts_with("-", "--"));
    assert!(ends_with("a.pkg.tar.zst", ".pkg.tar.zst"));
    assert_eq!(strip_prefix("Bearer x", "Bearer "), Some("x"));
    assert_eq!(strip_prefix("bearer x", "Bearer "), None);
    assert_eq!(trim("\u{3000} a b\t\n"), "a b");
    assert_eq!(trim_end(" a \r\n"), " a");
    assert_eq!(trim_end_text("x.git.git", ".git"), "x");
}

#[test]
fn texts_come_apart_and_together() {
    assert_eq!(split("a//b/", '/'), ["a", "", "b", ""]);
    assert_eq!(split("", '/'), [""]);
    assert_eq!(join(&split("a//b/", '/'), "/"), "a//b/");
    assert_eq!(join(&Vec::new(), ", "), "");
    assert_eq!(lines("a\r\nb\n\nc"), ["a", "b", "", "c"]);
    assert_eq!(lines("a\n"), ["a"]);
    assert_eq!(lines(""), Vec::<String>::new());
    assert_eq!(first_word(" abc\tdef"), Some("abc".to_string()));
    assert_eq!(first_word(" \n"), None);
    assert_eq!(sorted_set(&texts(&["b", "a", "b"])), ["a", "b"]);
}

#[test]
fn paths_are_joined_and_taken_apart() {
    assert_eq!(path_join("/a", "b"), "/a/b");
    assert_eq!(path_join("/a/", "b"), "/a/b");
    assert_eq!(path_join("", "b"), "b");
    assert_eq!(path_join("/a", "/b"), "/b");
    assert_eq!(path_join("/a", ""), "/a/");
    assert_eq!(components("/a//b/./c/"), ["/", "a", "b", "c"]);
    assert_eq!(components("./a"), [".", "a"]);
    assert_eq!(components("a/../b"), ["a", "..", "b"]);
    assert_eq!(components(""), Vec::<String>::new());
    assert_eq!(parent("a/b"), Some("a".to_string()));
    assert_eq!(parent("a"), Some("".to_string()));
    assert_eq!(parent("/a"), Some("/".to_string()));
    assert_eq!(parent("/"), None);
    assert_eq!(parent(""), None);
    assert_eq!(file_name("a/b/"), Some("b".to_string()));
    assert_eq!(file_name("a/.."), None);
}

#[test]
fn paths_are_ordered_by_component() {
    assert_eq!(
        sorted_paths(&texts(&["a-b", "a/b", "/z", "a", "../x"])),
        ["/z", "../x", "a", "a/b", "a-b"]
    );
    assert_eq!(path_set(&texts(&["b", "a/", "a", "b"])), ["a/", "b"]);
}

#[test]
fn bytes_are_read() {
    assert_eq!(read_lossy(b"caf\xc3\xa9"), "caf\u{e9}");
    assert_eq!(read_lossy(b"a\xffb"), "a\u{fffd}b");
    assert_eq!(read_utf8(b"caf\xc3\xa9"), Some("caf\u{e9}".to_string()));
    assert_eq!(read_utf8(b"a\xffb"), None);
}

#[test]
fn tables_keep_what_is_put() {
    let mut table: Table<String> = Table::new();
    table.put("b", "1".into());
    table.put("a", "2".into());
    table.put("b", "3".into());
    assert_eq!(table.len(), 2);
    assert_eq!(table.key_at(0), "a");
    assert_eq!(table.value_at(1), "3");
    assert_eq!(table.get("b").map(String::as_str), Some("3"));
    assert_eq!(table.get("c"), None);
    assert_eq!(table.remove("b"), Some("3".to_string()));
    assert_eq!(table.remove("b"), None);
    assert_eq!(table.len(), 1);
}
