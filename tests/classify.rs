use tree_magic_mini::mime::{fallback_parent_of, top_level_of};
use tree_magic_mini::{
    from_filepath, from_u8, match_filepath, match_u8, Checker, Classifier, FileFacts, FileKind,
    MagicRule, MagicTable,
};

const PNG_SIG: [u8; 8] = [0x89, b'P', b'N', b'G', 0x0D, 0x0A, 0x1A, 0x0A];

fn rule(mime: &str, offset: usize, pattern: &[u8]) -> MagicRule {
    MagicRule { mime: mime.to_string(), offset, pattern: pattern.to_vec() }
}

fn names(v: &[&str]) -> Vec<String> {
    v.iter().map(|s| s.to_string()).collect()
}

fn pairs(v: &[(&str, &str)]) -> Vec<(String, String)> {
    v.iter().map(|(a, b)| (a.to_string(), b.to_string())).collect()
}

fn sample_table() -> MagicTable {
    MagicTable {
        types: names(&[
            "image/gif",
            "image/png",
            "application/zip",
            "text/x-shellscript",
            "image/x-gif-anim",
            "image/x-gifish",
        ]),
        rules: vec![
            rule("image/gif", 0, b"GIF87a"),
            rule("image/gif", 0, b"GIF89a"),
            rule("image/png", 0, &PNG_SIG),
            rule("application/zip", 0, b"PK\x03\x04"),
            rule("text/x-shellscript", 0, b"#!/bin/sh"),
            rule("image/x-gif-anim", 13, b"NETSCAPE2.0"),
            rule("image/x-gifish", 0, b"GIF89a"),
        ],
        subclasses: pairs(&[("image/x-gif-anim", "image/gif"), ("image/x-gifish", "image/png")]),
        aliases: pairs(&[("application/x-zip-compressed", "application/zip")]),
    }
}

fn classifier() -> Classifier {
    Classifier::new(vec![Checker::Magic(sample_table()), Checker::BaseType])
}

fn file(kind: FileKind, head: Option<&[u8]>) -> FileFacts {
    FileFacts { kind, head: head.map(|h| h.to_vec()) }
}

#[test]
fn gif87a_is_identified_as_gif() {
    let c = classifier();
    let data = b"GIF87a\x01\x00\x01\x00\x80\x00\x00";
    assert_eq!(from_u8(&c, data), "image/gif");
    assert!(match_u8(&c, "image/gif", data));
}

#[test]
fn gif89a_is_identified_as_gif() {
    let c = classifier();
    let data = b"GIF89a\x01\x00\x01\x00\x80\x00\x00";
    assert_eq!(from_u8(&c, data), "image/gif");
    assert!(match_u8(&c, "image/gif", data));
}

#[test]
fn png_signature_is_identified_as_png() {
    let c = classifier();
    let mut data = PNG_SIG.to_vec();
    data.extend_from_slice(b"\x00\x00\x00\x0dIHDR");
    assert_eq!(from_u8(&c, &data), "image/png");
    assert!(match_u8(&c, "image/png", &data));
    assert!(!match_u8(&c, "image/gif", &data));
}

#[test]
fn empty_input_is_a_byte_stream() {
    let c = classifier();
    assert_eq!(from_u8(&c, b""), "application/octet-stream");
}

#[test]
fn text_without_zero_bytes_is_plain_text() {
    let c = classifier();
    assert_eq!(from_u8(&c, b"hello, world\n"), "text/plain");
    assert!(match_u8(&c, "text/plain", b"hello"));
    assert!(!match_u8(&c, "text/plain", b"he\x00llo"));
}

#[test]
fn binary_without_signature_falls_back_to_octet_stream() {
    let c = classifier();
    assert_eq!(from_u8(&c, b"\x00\x01\x02\x03\xff"), "application/octet-stream");
}

#[test]
fn text_subtype_is_found_under_plain_text() {
    let c = classifier();
    assert_eq!(from_u8(&c, b"#!/bin/sh\necho hi\n"), "text/x-shellscript");
}

#[test]
fn most_specific_subclass_is_returned() {
    let c = classifier();
    let data = b"GIF89a\x01\x00\x01\x00\x80\x00\x00NETSCAPE2.0";
    assert_eq!(from_u8(&c, data), "image/x-gif-anim");
    assert!(match_u8(&c, "image/x-gif-anim", data));
    assert!(match_u8(&c, "image/gif", data));
}

#[test]
fn subtree_of_a_failing_type_is_not_searched() {
    // image/x-gifish matches GIF content but sits under image/png, which does not.
    let c = classifier();
    let data = b"GIF89a\x01\x00";
    assert!(match_u8(&c, "image/x-gifish", data));
    assert_eq!(from_u8(&c, data), "image/gif");
}

#[test]
fn identified_type_matches_its_input() {
    let c = classifier();
    let inputs: Vec<&[u8]> = vec![b"GIF89a", b"", b"plain words", b"\x00\x00", b"PK\x03\x04rest"];
    for data in inputs {
        let t = from_u8(&c, data);
        assert!(match_u8(&c, &t, data), "{} does not match its input", t);
    }
}

#[test]
fn identification_is_deterministic() {
    let c = classifier();
    let data = b"PK\x03\x04\x14\x00";
    let a = from_u8(&c, data);
    let b = from_u8(&c, data);
    assert_eq!(a, b);
    assert_eq!(a, "application/zip");
}

#[test]
fn alias_resolves_to_canonical_type() {
    let c = classifier();
    let data = b"PK\x03\x04\x14\x00";
    assert!(match_u8(&c, "application/x-zip-compressed", data));
    assert_eq!(
        match_u8(&c, "application/x-zip-compressed", b"GIF89a"),
        match_u8(&c, "application/zip", b"GIF89a")
    );
    assert!(!match_u8(&c, "application/x-zip-compressed", b"GIF89a"));
}

#[test]
fn unknown_type_never_matches() {
    let c = classifier();
    assert!(!match_u8(&c, "foo/bar", b"GIF89a"));
    assert!(!match_u8(&c, "", b""));
}

#[test]
fn first_declaring_checker_owns_a_type() {
    let first = MagicTable {
        types: names(&["image/gif"]),
        rules: vec![rule("image/gif", 0, b"AAA")],
        subclasses: vec![],
        aliases: vec![],
    };
    let c = Classifier::new(vec![Checker::Magic(first), Checker::Magic(sample_table()), Checker::BaseType]);
    assert!(!match_u8(&c, "image/gif", b"GIF89a"));
    assert!(match_u8(&c, "image/gif", b"AAA"));
    assert_eq!(from_u8(&c, b"\x00GIF89a"), "application/octet-stream");
}

#[test]
fn later_alias_overrides_earlier() {
    let a = MagicTable {
        types: vec![],
        rules: vec![],
        subclasses: vec![],
        aliases: pairs(&[("image/x-picture", "image/gif")]),
    };
    let b = MagicTable {
        types: vec![],
        rules: vec![],
        subclasses: vec![],
        aliases: pairs(&[("image/x-picture", "image/png")]),
    };
    let c = Classifier::new(vec![
        Checker::Magic(a),
        Checker::Magic(b),
        Checker::Magic(sample_table()),
        Checker::BaseType,
    ]);
    assert!(match_u8(&c, "image/x-picture", &PNG_SIG));
    assert!(!match_u8(&c, "image/x-picture", b"GIF89a"));
}

#[test]
fn priority_type_is_tried_before_its_siblings() {
    // Both types match "GIF89a"; image/gif is on the priority list.
    let t = MagicTable {
        types: names(&["image/gif", "application/x-foo"]),
        rules: vec![rule("application/x-foo", 0, b"GIF8"), rule("image/gif", 0, b"GIF89a")],
        subclasses: vec![],
        aliases: vec![],
    };
    let c = Classifier::new(vec![Checker::Magic(t), Checker::BaseType]);
    assert_eq!(from_u8(&c, b"GIF89a"), "image/gif");
    assert_eq!(from_u8(&c, b"GIF87a\x00"), "application/x-foo");
}

#[test]
fn without_base_types_unmatched_content_is_the_root() {
    let c = Classifier::new(vec![Checker::Magic(sample_table())]);
    assert_eq!(from_u8(&c, b"\x00\x01"), "all/all");
    assert_eq!(from_u8(&c, b"GIF89a"), "all/all");
}

#[test]
fn missing_path_yields_none() {
    let c = classifier();
    let f = file(FileKind::Missing, None);
    assert_eq!(from_filepath(&c, &f), None);
    assert!(!match_filepath(&c, "application/octet-stream", &f));
}

#[test]
fn directory_is_identified_by_path() {
    let c = classifier();
    let f = file(FileKind::Directory, None);
    assert_eq!(from_filepath(&c, &f), Some("inode/directory".to_string()));
    assert!(match_filepath(&c, "inode/directory", &f));
    assert!(!match_filepath(&c, "all/allfiles", &f));
}

#[test]
fn special_file_is_only_the_root_type() {
    let c = classifier();
    let f = file(FileKind::Other, None);
    assert!(match_filepath(&c, "all/all", &f));
    assert_eq!(from_filepath(&c, &f), None);
}

#[test]
fn regular_file_is_identified_by_its_first_bytes() {
    let c = classifier();
    let head: &[u8] = b"GIF89a\x01\x00\x01\x00";
    let f = file(FileKind::Regular, Some(head));
    assert_eq!(from_filepath(&c, &f), Some(from_u8(&c, head)));
    assert_eq!(from_filepath(&c, &f), Some("image/gif".to_string()));
    assert!(match_filepath(&c, "image/gif", &f));
}

#[test]
fn png_file_is_identified_as_png() {
    let c = classifier();
    let f = file(FileKind::Regular, Some(&PNG_SIG));
    assert_eq!(from_filepath(&c, &f), Some("image/png".to_string()));
}

#[test]
fn unreadable_regular_file_yields_none() {
    let c = classifier();
    let f = file(FileKind::Regular, None);
    assert_eq!(from_filepath(&c, &f), None);
}

#[test]
fn empty_regular_file_is_a_byte_stream() {
    let c = classifier();
    let f = file(FileKind::Regular, Some(b""));
    assert_eq!(from_filepath(&c, &f), Some("application/octet-stream".to_string()));
}

#[test]
fn top_level_category() {
    assert_eq!(top_level_of(&"text/plain".to_string()), "text");
    assert_eq!(top_level_of(&"noslash".to_string()), "noslash");
    assert_eq!(top_level_of(&"/x".to_string()), "");
}

#[test]
fn fallback_parent_by_category() {
    assert_eq!(fallback_parent_of(&"text/x-c".to_string()), "text/plain");
    assert_eq!(fallback_parent_of(&"inode/socket".to_string()), "all/all");
    assert_eq!(fallback_parent_of(&"image/x-foo".to_string()), "application/octet-stream");
    assert_eq!(fallback_parent_of(&"textual/x".to_string()), "application/octet-stream");
}

#[test]
fn inode_types_hang_under_the_root() {
    let t = MagicTable {
        types: names(&["inode/x-thing"]),
        rules: vec![],
        subclasses: vec![],
        aliases: vec![],
    };
    let c = Classifier::new(vec![Checker::Magic(t), Checker::BaseType]);
    assert_eq!(from_u8(&c, b"abc"), "text/plain");
    assert!(!match_u8(&c, "inode/x-thing", b"abc"));
}

#[test]
fn cyclic_declarations_still_terminate() {
    let t = MagicTable {
        types: names(&["x-test/a", "x-test/b"]),
        rules: vec![rule("x-test/a", 0, b"AB"), rule("x-test/b", 0, b"AB")],
        subclasses: pairs(&[
            ("x-test/a", "application/octet-stream"),
            ("x-test/b", "x-test/a"),
            ("x-test/a", "x-test/b"),
        ]),
        aliases: vec![],
    };
    let c = Classifier::new(vec![Checker::Magic(t), Checker::BaseType]);
    let found = from_u8(&c, b"AB\x00");
    assert!(found == "x-test/a" || found == "x-test/b", "unexpected {}", found);
    assert_eq!(from_u8(&c, b"\x00"), "application/octet-stream");
}

#[test]
fn fallback_siblings_are_tried_in_sorted_order() {
    let t = MagicTable {
        types: names(&["application/x-b", "application/x-a"]),
        rules: vec![rule("application/x-b", 0, b"XX"), rule("application/x-a", 0, b"XX")],
        subclasses: vec![],
        aliases: vec![],
    };
    let c = Classifier::new(vec![Checker::Magic(t), Checker::BaseType]);
    assert_eq!(from_u8(&c, b"XX\x00"), "application/x-a");
}

#[test]
fn declared_siblings_are_tried_in_declaration_order() {
    let t = MagicTable {
        types: names(&["image/gif", "image/x-a", "image/x-z"]),
        rules: vec![
            rule("image/gif", 0, b"GIF89a"),
            rule("image/x-a", 0, b"GIF89a"),
            rule("image/x-z", 0, b"GIF89a"),
        ],
        subclasses: pairs(&[("image/x-z", "image/gif"), ("image/x-a", "image/gif")]),
        aliases: vec![],
    };
    let c = Classifier::new(vec![Checker::Magic(t), Checker::BaseType]);
    assert_eq!(from_u8(&c, b"GIF89a\x00"), "image/x-z");
}
