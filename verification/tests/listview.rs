use rtop_rs::listview::{ListItem, ListView};

fn item(name: &str, data: &[(&str, &str)]) -> ListItem {
    let entries: Vec<(String, String)> =
        data.iter().map(|(key, value)| (key.to_string(), value.to_string())).collect();
    ListItem::new(name, &entries)
}

fn named(names: &[&str]) -> Vec<ListItem> {
    names.iter().map(|name| item(name, &[])).collect()
}

fn names_of(list: &mut ListView, count: usize) -> Vec<String> {
    // Reads the records in order by walking the cursor over them.
    let cursor = list.cursor();
    list.to_first();
    let mut names = Vec::new();
    for _ in 0..count {
        names.push(list.select().unwrap().name.clone());
        list.next();
    }
    list.to_first();
    for _ in 0..cursor {
        list.next();
    }
    names
}

fn keys(names: &[&str]) -> Vec<String> {
    names.iter().map(|name| name.to_string()).collect()
}

#[test]
fn new_list_is_sorted_by_name() {
    let mut list = ListView::new(5, 20, &named(&["b", "a"]), "name", vec![]);
    let text = list.display();
    assert_eq!(
        text,
        "name                \n[[EFFECT_REVERSE]]a                   [[EFFECT_REVERSE]]\nb                   \n"
    );
    assert!(text.find("a  ").unwrap() < text.find("b  ").unwrap());
    assert_eq!(list.select().unwrap().name, "a");
}

#[test]
fn names_sort_without_regard_to_case() {
    let mut list = ListView::new(9, 20, &named(&["delta", "Bravo", "alpha", "Charlie", "ÉCLAIR", "écru"]), "name", vec![]);
    assert_eq!(names_of(&mut list, 6), vec!["alpha", "Bravo", "Charlie", "delta", "ÉCLAIR", "écru"]);
    list.update_items(&named(&["b", "B", "a", "A"]));
    assert_eq!(names_of(&mut list, 4), vec!["a", "A", "b", "B"]);
}

#[test]
fn numbers_sort_greatest_first() {
    let items = vec![
        item("three", &[("CPU %", "3.2")]),
        item("ten", &[("CPU %", "10")]),
        item("half", &[("CPU %", "0.5")]),
        item("word", &[("CPU %", "abc")]),
        item("none", &[("Count", "7")]),
        item("minus", &[("CPU %", "-1")]),
        item("ten again", &[("CPU %", "10.0")]),
        item("eleven", &[("CPU %", "+11.")]),
    ];
    let mut list = ListView::new(20, 40, &items, "Name", keys(&["CPU %", "Count"]));
    list.sort_by("CPU %");
    // the order changes only when the records are next replaced
    assert_eq!(list.select().unwrap().name, "eleven");
    assert_eq!(names_of(&mut list, 8)[1], "half");
    list.update_items(&items);
    assert_eq!(
        names_of(&mut list, 8),
        vec!["eleven", "ten", "ten again", "three", "half", "minus", "word", "none"]
    );
    list.sort_by("Count");
    list.update_items(&items);
    assert_eq!(names_of(&mut list, 8)[0], "none");
    list.sort_by("Name");
    list.update_items(&items);
    assert_eq!(
        names_of(&mut list, 8),
        vec!["eleven", "half", "minus", "none", "ten", "ten again", "three", "word"]
    );
}

#[test]
fn numbers_with_exponents_sort_by_value() {
    let items = vec![
        item("five", &[("CPU %", "5")]),
        item("none", &[]),
        item("thousand", &[("CPU %", "1e3")]),
        item("nine", &[("CPU %", "9")]),
        item("ten", &[("CPU %", "10")]),
        item("endless", &[("CPU %", "inf")]),
        item("tiny", &[("CPU %", "2.5E-1")]),
    ];
    let mut list = ListView::new(20, 40, &items, "Name", keys(&["CPU %"]));
    list.sort_by("CPU %");
    list.update_items(&items);
    assert_eq!(
        names_of(&mut list, 7),
        vec!["thousand", "ten", "nine", "five", "tiny", "none", "endless"]
    );
}

#[test]
fn records_that_tie_keep_their_order() {
    let items = vec![
        item("aB", &[("n", "1e1"), ("id", "1")]),
        item("b", &[("n", "3"), ("id", "2")]),
        item("Ab", &[("n", "10.0"), ("id", "3")]),
        item("AB", &[("n", "10"), ("id", "4")]),
        item("a", &[("n", "x"), ("id", "5")]),
        item("ab", &[("id", "6")]),
    ];
    let ids = |list: &mut ListView| -> Vec<String> {
        list.to_first();
        let mut ids = Vec::new();
        for _ in 0..6 {
            ids.push(list.select().unwrap().field(&"id".to_string()).unwrap().clone());
            list.next();
        }
        ids
    };
    let mut list = ListView::new(20, 40, &items, "Name", keys(&["n"]));
    assert_eq!(ids(&mut list), vec!["5", "1", "3", "4", "6", "2"]);
    list.sort_by("n");
    list.update_items(&items);
    assert_eq!(ids(&mut list), vec!["1", "3", "4", "2", "5", "6"]);
    let mut swapped = items.clone();
    swapped.reverse();
    list.update_items(&swapped);
    assert_eq!(ids(&mut list), vec!["4", "3", "1", "2", "6", "5"]);
}

#[test]
fn table_with_columns() {
    let items = vec![
        item("proc", &[("CPU %", "3.2"), ("Count", "12")]),
        item("systemd-journald-long-name", &[("Count", "1234567890")]),
        item("x", &[("CPU %", "9"), ("CPU %", "8")]),
    ];
    let mut list = ListView::new(5, 30, &items, "Name", keys(&["CPU %", "Count"]));
    list.next();
    assert_eq!(
        list.display(),
        "Name            CPU %  Count  \nproc            3.2    12     \n[[EFFECT_REVERSE]]systemd-journal        1234567[[EFFECT_REVERSE]]\nx               9             \n"
    );
    list.resize(5, 16);
    assert_eq!(
        list.display(),
        "N CPU %  Count  \np 3.2    12     \n[[EFFECT_REVERSE]]s        1234567[[EFFECT_REVERSE]]\nx 9             \n"
    );
    list.to_first();
    list.resize(5, 10);
    assert_eq!(
        list.display(),
        "CPU %  Cou\n[[EFFECT_REVERSE]]3.2    12 [[EFFECT_REVERSE]]\n       123\n9         \n"
    );
    list.resize(5, 0);
    assert_eq!(list.display(), "\n[[EFFECT_REVERSE]][[EFFECT_REVERSE]]\n\n\n");
    list.resize(5, -7);
    assert_eq!(list.display(), "\n[[EFFECT_REVERSE]][[EFFECT_REVERSE]]\n\n\n");
}

#[test]
fn every_line_is_as_wide_as_the_view() {
    let items = vec![
        item("a name that is much longer than the view is wide", &[("CPU %", "123456789")]),
        item("b", &[]),
    ];
    for width in 0..40 {
        let mut list = ListView::new(4, width, &items, "Name", keys(&["CPU %", "Memory %"]));
        let text = list.display();
        let mut lines = 0;
        for line in text.split_terminator('\n') {
            let visible = line.replace("[[EFFECT_REVERSE]]", "");
            assert_eq!(visible.chars().count(), width as usize);
            assert_eq!(line.matches("[[EFFECT_REVERSE]]").count() % 2, 0);
            lines += 1;
        }
        assert_eq!(lines, 3);
        assert_eq!(text.matches("[[EFFECT_REVERSE]]").count(), 2);
    }
}

#[test]
fn cursor_moves_and_window_follows() {
    let mut list = ListView::new(4, 12, &named(&["a", "b", "c", "d", "e"]), "N", vec![]);
    assert_eq!((list.cursor(), list.scroll()), (0, 0));
    list.previous();
    assert_eq!((list.cursor(), list.scroll()), (0, 0));
    list.next();
    list.next();
    assert_eq!((list.cursor(), list.scroll()), (2, 0));
    list.next();
    assert_eq!((list.cursor(), list.scroll()), (3, 1));
    list.next();
    assert_eq!((list.cursor(), list.scroll()), (4, 2));
    list.next();
    assert_eq!((list.cursor(), list.scroll()), (4, 2));
    assert_eq!(list.select().unwrap().name, "e");
    list.previous();
    list.previous();
    assert_eq!((list.cursor(), list.scroll()), (2, 2));
    list.previous();
    assert_eq!((list.cursor(), list.scroll()), (1, 1));
    list.to_last();
    assert_eq!((list.cursor(), list.scroll()), (4, 2));
    list.to_first();
    assert_eq!((list.cursor(), list.scroll()), (0, 0));
    list.to_last();
    assert_eq!((list.cursor(), list.scroll()), (4, 2));
    list.previous();
    list.to_last();
    assert_eq!((list.cursor(), list.scroll()), (4, 2));
}

#[test]
fn window_shows_the_records_in_sight() {
    let mut list = ListView::new(3, 12, &named(&["a", "b", "c", "d", "e"]), "N", vec![]);
    list.next();
    list.next();
    list.next();
    assert_eq!((list.cursor(), list.scroll()), (3, 2));
    assert_eq!(
        list.display(),
        "N           \nc           \n[[EFFECT_REVERSE]]d           [[EFFECT_REVERSE]]\n"
    );
}

#[test]
fn highlight_stays_in_sight_after_every_call() {
    let items = named(&["a", "b", "c", "d", "e", "f", "g", "h", "i"]);
    let mut list = ListView::new(5, 12, &items, "N", vec![]);
    let mut height: i32 = 5;
    let mut seed: u32 = 12345;
    for _ in 0..2000 {
        seed = seed.wrapping_mul(1103515245).wrapping_add(12345);
        match (seed >> 16) % 6 {
            0 => list.next(),
            1 => list.previous(),
            2 => list.to_first(),
            3 => list.to_last(),
            4 => {
                height = 2 + ((seed >> 8) % 12) as i32;
                list.resize(height, 12);
            }
            _ => list.next(),
        }
        let visible = (height - 1) as usize;
        assert!(list.cursor() < items.len());
        assert!(list.scroll() <= list.cursor());
        assert!(list.cursor() - list.scroll() <= visible - 1);
        assert_eq!(list.display().matches("[[EFFECT_REVERSE]]").count(), 2);
    }
}

#[test]
fn resize_brings_the_window_back_to_the_cursor() {
    let mut list = ListView::new(6, 12, &named(&["a", "b", "c", "d", "e", "f", "g"]), "N", vec![]);
    list.to_last();
    assert_eq!((list.cursor(), list.scroll()), (6, 2));
    list.to_first();
    list.next();
    list.next();
    list.next();
    list.next();
    assert_eq!((list.cursor(), list.scroll()), (4, 0));
    list.resize(3, 12);
    assert_eq!((list.cursor(), list.scroll()), (4, 3));
    list.resize(4, 12);
    assert_eq!((list.cursor(), list.scroll()), (4, 3));
    // a higher view leaves the window where it is; a list that fits is
    // shown from its top all the same
    list.resize(8, 12);
    assert_eq!((list.cursor(), list.scroll()), (4, 3));
    assert_eq!(
        list.display(),
        "N           \na           \nb           \nc           \nd           \n[[EFFECT_REVERSE]]e           [[EFFECT_REVERSE]]\nf           \ng           \n"
    );
    list.resize(7, 12);
    assert_eq!((list.cursor(), list.scroll()), (4, 3));
    assert_eq!(
        list.display(),
        "N           \nd           \n[[EFFECT_REVERSE]]e           [[EFFECT_REVERSE]]\nf           \ng           \n"
    );
    list.resize(1, 12);
    assert_eq!((list.cursor(), list.scroll()), (4, 4));
    assert_eq!(list.display(), "N           \n");
    list.resize(0, 12);
    assert_eq!((list.cursor(), list.scroll()), (4, 4));
    list.resize(2, 12);
    assert_eq!(list.display(), "N           \n[[EFFECT_REVERSE]]e           [[EFFECT_REVERSE]]\n");
}

#[test]
fn shorter_list_pulls_the_cursor_back() {
    let mut list = ListView::new(4, 12, &named(&["a", "b", "c", "d", "e", "f"]), "N", vec![]);
    list.to_last();
    assert_eq!((list.cursor(), list.scroll()), (5, 3));
    list.update_items(&named(&["z", "y", "x", "w"]));
    assert_eq!((list.cursor(), list.scroll()), (3, 3));
    assert_eq!(list.select().unwrap().name, "z");
    assert_eq!(list.display(), "N           \n[[EFFECT_REVERSE]]z           [[EFFECT_REVERSE]]\n");
    list.update_items(&named(&["q", "p"]));
    assert_eq!((list.cursor(), list.scroll()), (1, 1));
    assert_eq!(list.select().unwrap().name, "q");
    assert_eq!(
        list.display(),
        "N           \np           \n[[EFFECT_REVERSE]]q           [[EFFECT_REVERSE]]\n"
    );
    list.update_items(&named(&["k", "l", "m", "n", "o"]));
    assert_eq!((list.cursor(), list.scroll()), (1, 1));
    assert_eq!(list.select().unwrap().name, "l");
    list.update_items(&named(&[]));
    assert_eq!((list.cursor(), list.scroll()), (0, 0));
    assert!(list.select().is_none());
}

#[test]
fn empty_list_shows_its_header_only() {
    let mut list = ListView::new(5, 12, &Vec::new(), "Name", keys(&["CPU %"]));
    assert!(list.select().is_none());
    list.next();
    list.previous();
    list.to_last();
    list.to_first();
    list.resize(3, 12);
    assert_eq!((list.cursor(), list.scroll()), (0, 0));
    assert_eq!(list.display(), "Name CPU %  \n");
    let mut unsized_list = ListView::new(0, 0, &Vec::new(), "Name", keys(&["CPU %"]));
    assert_eq!(unsized_list.display(), "\n");
}

#[test]
fn record_fields() {
    let record = item("x", &[("CPU %", "9"), ("Count", "2"), ("CPU %", "8")]);
    assert_eq!(record.name, "x");
    assert_eq!(record.field(&"CPU %".to_string()), Some(&"9".to_string()));
    assert_eq!(record.field(&"Count".to_string()), Some(&"2".to_string()));
    assert_eq!(record.field(&"count".to_string()), None);
    let copy = record.clone();
    assert_eq!(copy.name, record.name);
    assert_eq!(copy.data, record.data);
}
