use fileserve::listing::{fill_template, listing, name_le, sort_names};

#[test]
fn names_sort_in_byte_order() {
    let names = vec![b"b".to_vec(), b"a.txt".to_vec(), b"B".to_vec(), b"a".to_vec(), b"a".to_vec()];
    assert_eq!(
        sort_names(&names),
        vec![b"B".to_vec(), b"a".to_vec(), b"a".to_vec(), b"a.txt".to_vec(), b"b".to_vec()]
    );
    assert!(sort_names(&Vec::new()).is_empty());
    assert!(name_le(b"ab", b"abc"));
    assert!(!name_le(b"abc", b"ab"));
    assert!(name_le(b"", b""));
}

#[test]
fn listing_puts_directories_first() {
    let dirs = vec![b"z".to_vec(), b"m".to_vec()];
    let files = vec![b"f.txt".to_vec()];
    let html = String::from_utf8(listing(&dirs, &files)).unwrap();
    let expected = String::new()
        + "<button class=\"btnLink invisible\" >💾</button> <a href=\"m/\"><button class=\"btnLink\">m/</button></a><br>"
        + "<button class=\"btnLink invisible\" >💾</button> <a href=\"z/\"><button class=\"btnLink\">z/</button></a><br>"
        + "<button class=\"btnLink\" onclick=\"javascript:download('f.txt', true)\" >💾</button> <button class=\"btnLink\" onclick=\"javascript:download('f.txt', false)\" onmouseenter=\"javascript:show_preview('f.txt');\" onmousedown=\"javascript:show_preview('f.txt');\"') onmouseleave=\"javascript:hide_preview();\" onmouseout=\"javascript:hide_preview();\" onmouseup=\"javascript:hide_preview();\">f.txt</button><br>";
    assert_eq!(html, expected);
    assert!(listing(&Vec::new(), &Vec::new()).is_empty());
}

#[test]
fn template_placeholders_are_replaced() {
    assert_eq!(
        fill_template(b"<ul>{{Entries}}</ul>{{Entries}}", b"X"),
        b"<ul>X</ul>X".to_vec()
    );
    assert_eq!(fill_template(b"{{Entries}", b"X"), b"{{Entries}".to_vec());
    assert_eq!(fill_template(b"", b"X"), Vec::<u8>::new());
}
