//! Mod loading decisions and manifests.

use pm::modload::{
    build_manifest, manifest_diff, mod_abi, mod_name, parse_manifest, Attempt, ModLoader, Stamp,
    MOD_ABI,
};

#[test]
fn the_abi_word_mixes_version_and_type() {
    assert_eq!(mod_abi(0), MOD_ABI);
    assert_eq!(mod_abi(0xdead_beef), 0x706d_0004 ^ 0xdead_beef);
    assert_ne!(mod_abi(1), mod_abi(2));
}

fn pairs(text: &str) -> Vec<(String, String)> {
    parse_manifest(text).into_iter().map(|r| (r.key, r.value)).collect()
}

#[test]
fn manifests_split_at_the_first_equals_sign() {
    assert_eq!(
        pairs("rustc=1.96.0 (ac68faa20)\nprofile=release\r\njunk\nx=a=b\nlast="),
        vec![
            ("rustc".to_string(), "1.96.0 (ac68faa20)".to_string()),
            ("profile".to_string(), "release".to_string()),
            ("x".to_string(), "a=b".to_string()),
            ("last".to_string(), "".to_string()),
        ]
    );
    assert!(pairs("").is_empty());
    assert!(pairs("\n\n").is_empty());
    // Only a line end's carriage return goes.
    assert_eq!(pairs("k=v\r"), vec![("k".to_string(), "v\r".to_string())]);
    assert_eq!(build_manifest("a=1").len(), 1);
}

#[test]
fn a_diff_marks_the_lines_that_disagree() {
    let host = "rustc=1.96.0\nprofile=release\ntarget=x";
    let theirs = "rustc=1.95.0\nprofile=release";
    let want = format!(
        "    {:<8} host {:<28} mod {}{}\n    {:<8} host {:<28} mod {}{}\n    {:<8} host {:<28} mod {}{}\n",
        "rustc", "1.96.0", "1.95.0", "   <- mismatch",
        "profile", "release", "release", "",
        "target", "x", "<absent>", "   <- mismatch",
    );
    assert_eq!(manifest_diff(host, theirs), want);
}

#[test]
fn names_drop_the_lib_prefix() {
    assert_eq!(mod_name(Some("libhogs")), "hogs");
    assert_eq!(mod_name(Some("hogs")), "hogs");
    assert_eq!(mod_name(Some("liblibrary")), "rary");
    assert_eq!(mod_name(None), "mod");
}

#[test]
fn a_file_is_tried_once_per_change() {
    let mut loader = ModLoader::new();
    let i = loader.watch(Some("libhogs"));
    assert!(!loader.due(i, None), "missing files are fine");
    let t1 = Stamp { secs: 10, nanos: 1 };
    assert!(loader.due(i, Some(t1)));
    assert!(!loader.due(i, Some(t1)), "tried, until it changes");
    assert!(loader.due(i, Some(Stamp { secs: 10, nanos: 2 })));
}

#[test]
fn only_a_successful_init_makes_a_mod_live() {
    let mut loader = ModLoader::default();
    let a = loader.watch(Some("liba"));
    let b = loader.watch(Some("b"));
    assert_eq!(
        loader.settle(a, Attempt::NoOpen { error: "nope".to_string() }),
        "pm: mod 'a' failed to open: nope"
    );
    assert_eq!(
        loader.settle(a, Attempt::NoAbi { error: "e".to_string() }),
        "pm: mod 'a' has no pm_mod_abi: e"
    );
    assert_eq!(
        loader.settle(a, Attempt::NoInit { error: "e".to_string() }),
        "pm: mod 'a' has no pm_mod_init: e"
    );
    assert_eq!(loader.settle(a, Attempt::Refused), "pm: mod 'a' init returned false");
    assert_eq!(
        loader.settle(a, Attempt::Panicked),
        "pm: mod 'a' init panicked (see message above)"
    );
    assert!(loader.loaded().is_empty());
    assert_eq!(loader.settle(b, Attempt::Loaded), "pm: mod 'b' loaded");
    assert_eq!(loader.loaded(), vec!["b".to_string()]);
    // A failed reload leaves the running one in place.
    loader.settle(b, Attempt::Refused);
    assert_eq!(loader.loaded(), vec!["b".to_string()]);
}

#[test]
fn a_mismatch_prints_both_words_and_the_diff() {
    let mut loader = ModLoader::new();
    let i = loader.watch(Some("libx"));
    let said = loader.settle(
        i,
        Attempt::Mismatch {
            abi: 0xab,
            host: 0x706d_0004,
            ours: "pm=1".to_string(),
            theirs: Some("pm=2".to_string()),
        },
    );
    assert!(said.starts_with("pm: mod 'x' ABI 0xab != host 0x706d0004 — built against a different pm."));
    assert!(said.ends_with("mod 2   <- mismatch\n"));
    let short = loader.settle(
        i,
        Attempt::Mismatch { abi: 0, host: 1, ours: "pm=1".to_string(), theirs: None },
    );
    assert!(short.contains("ABI 0x0 != host 0x1"));
    assert!(short.ends_with("rust-toolchain.toml).\n"));
}
