use lib::ordering::{group_rank, in_order, ordered, request, sort_key, takes_shipped_sort, Order, Row, SortBy};

fn file(name_rank: u64, mime: &str, size: u64) -> Row {
    Row { name_rank, dir: false, mime: Some(mime.to_string()), size, mtime: 0, walked: 0 }
}

fn folder(name_rank: u64, walked: u64) -> Row {
    Row { name_rank, dir: true, mime: None, size: 4096, mtime: 0, walked }
}

fn names<'a>(order: &[usize], names: &[&'a str]) -> Vec<&'a str> {
    order.iter().map(|&i| names[i]).collect()
}

#[test]
fn sort_requires_a_key_while_list_keeps_its_default() {
    for line in [
        r#"{"c":"sort"}"#,
        r#"{"c":"sort","by":null}"#,
        r#"{"c":"sort","by":true}"#,
        r#"{"c":"sort","by":""}"#,
        r#"{"c":"sort","by":"mode"}"#,
        r#"{"c":"sort","by":"mode","foldersFirst":false}"#,
        r#"{"c":"sort","by":"mode","groupByKind":true}"#,
    ] {
        assert_eq!(request(line).unwrap_err(), "no such sort key; send name, size, mtime or kind", "{}", line);
    }
    let o = request(r#"{"c":"list"}"#).unwrap();
    assert_eq!(o, Order { by: SortBy::Name, desc: false, folders: true, groups: false });
    assert!(takes_shipped_sort(o), "a plain list is the listing's own sort");
    let rows = [file(1, "text/plain", 1), file(0, "text/plain", 1)];
    let order = ordered(&rows, o);
    assert_eq!(names(&order, &["z.txt", "a.txt"]), ["a.txt", "z.txt"]);
    assert_eq!(request("not json").unwrap_err(), "invalid ordering request");
}

#[test]
fn folder_toggle_and_grouping_change_real_order() {
    let shown = ["z-folder", "b.txt", "c.jpg"];
    let rows = [folder(2, 0), file(0, "text/plain", 4), file(1, "image/jpeg", 5)];
    let flat = Order { by: SortBy::Name, desc: false, folders: false, groups: false };
    assert_eq!(names(&ordered(&rows, flat), &shown)[0], "b.txt");
    let grouped = Order { by: SortBy::Name, desc: false, folders: true, groups: true };
    assert_eq!(names(&ordered(&rows, grouped), &shown)[..2], ["z-folder", "c.jpg"]);
    let kind = Order { by: SortBy::Kind, desc: false, folders: false, groups: false };
    assert_eq!(names(&ordered(&rows, kind), &shown)[0], "c.jpg");
    assert!(sort_key("bad").is_err());
}

#[test]
fn size_without_folders_first_interleaves_by_walked_size() {
    let shown = ["big.bin", "mid", "small.bin"];
    let rows = [
        file(0, "application/octet-stream", 64 * 1024),
        folder(1, 4096 + 100),
        file(2, "application/octet-stream", 5),
    ];
    let o = Order { by: SortBy::Size, desc: false, folders: false, groups: false };
    let order = ordered(&rows, o);
    assert_eq!(names(&order, &shown), ["small.bin", "mid", "big.bin"]);
    let walked = [None, Some(4196u64), None];
    let seed = in_order(&walked, &order);
    assert_eq!(seed.len(), 3, "the seed arrives in final row order");
    assert!(seed[0].is_none() && seed[2].is_none(), "file rows seed nothing");
    assert!(seed[1].unwrap() > 100);
}

#[test]
fn descending_turns_the_key_and_the_name_round_but_not_the_groups() {
    let shown = ["a", "b", "dir", "c"];
    let rows = [file(0, "text/plain", 10), file(1, "text/plain", 10), folder(2, 1), file(3, "text/plain", 20)];
    let o = Order { by: SortBy::Size, desc: true, folders: true, groups: false };
    assert_eq!(names(&ordered(&rows, o), &shown), ["dir", "c", "b", "a"]);
    let up = Order { desc: false, ..o };
    assert_eq!(names(&ordered(&rows, up), &shown), ["dir", "a", "b", "c"]);
}

#[test]
fn equal_rows_keep_the_order_they_came_in() {
    let rows = [file(5, "text/plain", 1), file(5, "text/plain", 1), file(5, "text/plain", 1)];
    for desc in [false, true] {
        let o = Order { by: SortBy::Size, desc, folders: false, groups: false };
        assert_eq!(ordered(&rows, o), vec![0, 1, 2]);
    }
}

#[test]
fn kinds_rank_folders_then_images_then_the_rest() {
    assert_eq!(group_rank(true, "image/png"), 0);
    assert_eq!(group_rank(false, "image/png"), 1);
    assert_eq!(group_rank(false, "text/plain"), 2);
    assert_eq!(group_rank(false, "imag"), 2);
    assert_eq!(sort_key("date"), Ok(SortBy::Mtime));
    let o = request(r#"{"c":"sort","by":"kind","desc":true,"foldersFirst":false,"groupByKind":true}"#).unwrap();
    assert_eq!(o, Order { by: SortBy::Kind, desc: true, folders: false, groups: true });
    assert!(!takes_shipped_sort(o));
}

#[test]
fn with_no_groups_a_descending_order_is_the_ascending_one_turned_round() {
    let rows = [
        file(3, "text/plain", 10),
        folder(0, 99),
        file(1, "image/png", 10),
        file(2, "text/plain", 5),
    ];
    for by in [SortBy::Name, SortBy::Size, SortBy::Mtime, SortBy::Kind] {
        let up = Order { by, desc: false, folders: false, groups: false };
        let mut turned = ordered(&rows, up);
        turned.reverse();
        assert_eq!(ordered(&rows, Order { desc: true, ..up }), turned, "{:?}", by);
    }
}
