use icon_gen::markdown::{
    build_markdown_list, fill_template, markdown_document, Child, Entry, Kind, TemplateError,
    END_MARKER, START_MARKER,
};
use icon_gen::order::order_of;

fn file(name: &str, size: u64) -> Entry {
    Entry {
        raw_name: name.as_bytes().to_vec(),
        name: name.to_string(),
        kind: Kind::File(size),
    }
}

fn dir(name: &str, children: Vec<Child>) -> Entry {
    Entry {
        raw_name: name.as_bytes().to_vec(),
        name: name.to_string(),
        kind: Kind::Dir(children),
    }
}

fn unreadable(name: &str) -> Entry {
    Entry {
        raw_name: name.as_bytes().to_vec(),
        name: name.to_string(),
        kind: Kind::UnreadableDir,
    }
}

fn child(name: &str, is_dir: bool, size: u64) -> Child {
    Child {
        raw_name: name.as_bytes().to_vec(),
        name: name.to_string(),
        is_dir,
        size,
    }
}

#[test]
fn names_are_ordered_by_bytes_and_equal_names_stay_in_order() {
    let names = ["b", "a", "", "ab", "a", "B", "\u{e9}", "a\u{0}"];
    let keys: Vec<Vec<u8>> = names.iter().map(|n| n.as_bytes().to_vec()).collect();
    let mut expected: Vec<usize> = (0..keys.len()).collect();
    expected.sort_by_key(|&i| keys[i].clone());
    assert_eq!(order_of(&keys), expected);
    assert_eq!(order_of(&keys), vec![2, 5, 1, 4, 7, 3, 0, 6]);
}

#[test]
fn many_names_are_ordered() {
    let mut x = 12345u64;
    let mut keys: Vec<Vec<u8>> = Vec::new();
    for _ in 0..3000 {
        x = x.wrapping_mul(6364136223846793005).wrapping_add(1442695040888963407);
        keys.push(format!("{}", (x >> 40) % 1000).into_bytes());
    }
    let mut expected: Vec<usize> = (0..keys.len()).collect();
    expected.sort_by_key(|&i| keys[i].clone());
    assert_eq!(order_of(&keys), expected);
}

#[test]
fn directories_come_before_files() {
    let list = build_markdown_list(&vec![
        file("icon.svg", 2048),
        file("a.txt", 0),
        dir(
            "favicon",
            vec![child("z", true, 0), child("favicon.ico", false, 1536), child("b", false, 1)],
        ),
        dir("empty", vec![]),
    ]);
    assert_eq!(
        list.unwrap(),
        "- **empty/**\n\
         - **favicon/**\n  \
           - [b](./favicon/b) *(1B)*\n  \
           - [favicon.ico](./favicon/favicon.ico) *(1.5K)* - **48x48**\n  \
           - [**z/**](./favicon/z/)\n\
         - [a.txt](./a.txt) *(0)*\n\
         - [icon.svg](./icon.svg) *(2K)* - **Source**"
    );
}

#[test]
fn children_are_ordered_by_name_alone() {
    let list = build_markdown_list(&vec![dir(
        "d",
        vec![child("b", true, 0), child("a", false, 3), child("c", false, 4)],
    )]);
    assert_eq!(
        list.unwrap(),
        "- **d/**\n  - [a](./d/a) *(3B)*\n  - [**b/**](./d/b/)\n  - [c](./d/c) *(4B)*"
    );
}

#[test]
fn an_empty_directory_has_an_empty_list() {
    assert_eq!(build_markdown_list(&vec![]).unwrap(), "");
}

#[test]
fn order_goes_by_the_bytes_of_the_name_and_not_by_its_text() {
    let odd = Entry {
        raw_name: vec![0xff],
        name: "\u{fffd}".to_string(),
        kind: Kind::File(1),
    };
    let list = build_markdown_list(&vec![odd, file("\u{1f600}", 1)]).unwrap();
    assert_eq!(list, "- [\u{1f600}](./\u{1f600}) *(1B)*\n- [\u{fffd}](./\u{fffd}) *(1B)*");
}

#[test]
fn the_first_unreadable_directory_of_the_list_is_reported() {
    let entries = vec![file("a", 1), unreadable("y"), dir("m", vec![]), unreadable("x")];
    assert_eq!(build_markdown_list(&entries), Err(3));
}

#[test]
fn a_template_keeps_what_is_around_the_markers() {
    let template = format!("top\n{START_MARKER}old{END_MARKER}\nbottom {END_MARKER} {START_MARKER}");
    assert_eq!(
        fill_template(&template, "- x").unwrap(),
        format!("top\n{START_MARKER}\n\n- x\n\n{END_MARKER}\nbottom {END_MARKER} {START_MARKER}")
    );
    assert_eq!(START_MARKER, "<!-- AUTO_FILE_LIST_START -->");
    assert_eq!(END_MARKER, "<!-- AUTO_FILE_LIST_END -->");
}

#[test]
fn a_template_without_markers_is_refused() {
    assert_eq!(fill_template("", "x"), Err(TemplateError::MissingStart));
    assert_eq!(fill_template(END_MARKER, "x"), Err(TemplateError::MissingStart));
    assert_eq!(fill_template(START_MARKER, "x"), Err(TemplateError::MissingEnd));
    let swapped = format!("{END_MARKER}{START_MARKER}");
    assert_eq!(fill_template(&swapped, "x"), Err(TemplateError::MissingEnd));
    assert_eq!(
        TemplateError::MissingStart.message("a.md"),
        "Missing AUTO_FILE_LIST_START marker in a.md"
    );
    assert_eq!(
        TemplateError::MissingEnd.message("b.md"),
        "Missing AUTO_FILE_LIST_END marker in b.md"
    );
}

#[test]
fn a_document_without_a_template_is_fresh() {
    assert_eq!(
        markdown_document(None, "- x").unwrap(),
        "# Icons\n\n<!-- AUTO_FILE_LIST_START -->\n\n- x\n\n<!-- AUTO_FILE_LIST_END -->\n"
    );
    assert_eq!(
        markdown_document(Some("none"), "- x"),
        Err(TemplateError::MissingStart)
    );
}

#[test]
fn filling_again_replaces_the_list() {
    let template = format!("a{START_MARKER}{END_MARKER}b");
    let once = fill_template(&template, "one\ntwo").unwrap();
    assert_eq!(fill_template(&once, "three"), fill_template(&template, "three"));
    let fresh = markdown_document(None, "one").unwrap();
    assert_eq!(fill_template(&fresh, "two"), markdown_document(None, "two"));
}

#[test]
fn a_list_with_an_end_marker_is_not_replaced_whole() {
    let template = format!("a{START_MARKER}{END_MARKER}b");
    let once = fill_template(&template, END_MARKER).unwrap();
    assert_ne!(fill_template(&once, "x"), fill_template(&template, "x"));
}
