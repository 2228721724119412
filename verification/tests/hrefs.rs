use ai_memory_panel::href::{encode_path, encode_segment, page_href, project_href};

#[test]
fn href_helpers_percent_encode_segments() {
    assert_eq!(
        project_href("default space", "proj#one"),
        "w/default%20space/proj%23one"
    );
    assert_eq!(
        page_href("default", "scratch", "notes/a b%25.md"),
        "w/default/scratch/p/notes/a%20b%2525.md"
    );
}

#[test]
fn unreserved_bytes_stand_for_themselves() {
    let plain = "ABCXYZabcxyz0189-._~";
    assert_eq!(encode_segment(plain), plain);
    assert_eq!(encode_segment("á/?"), "%C3%A1%2F%3F");
    assert_eq!(encode_segment(""), "");
    assert_eq!(encode_segment("\u{0}\u{7f}🧭"), "%00%7F%F0%9F%A7%AD");
}

#[test]
fn slashes_of_a_path_are_kept() {
    assert_eq!(encode_path("a//b/"), "a//b/");
    assert_eq!(encode_path(""), "");
    assert_eq!(encode_path("/x y"), "/x%20y");
}

#[test]
fn links_tell_pages_apart() {
    assert_ne!(project_href("a/b", "c"), project_href("a", "b/c"));
    assert_ne!(page_href("a", "b", "c%2Fd"), page_href("a", "b", "c/d"));
    assert_ne!(page_href("a", "b/p/c", "d"), page_href("a", "b", "c/p/d"));
}

#[test]
fn encoded_segments_decode_to_themselves() {
    for s in ["", "a b", "100%25", "ação/🧭?#", "~._-"] {
        let encoded = encode_segment(s);
        let mut bytes = Vec::new();
        let mut rest = encoded.as_bytes();
        while let Some((first, tail)) = rest.split_first() {
            if *first == b'%' {
                let digits = std::str::from_utf8(&tail[..2]).unwrap();
                bytes.push(u8::from_str_radix(digits, 16).unwrap());
                rest = &tail[2..];
            } else {
                bytes.push(*first);
                rest = tail;
            }
        }
        assert_eq!(String::from_utf8(bytes).unwrap(), s);
    }
}
