use rtop_rs::layout::{pane_layout, Pane};
use rtop_rs::listview::ListItem;
use rtop_rs::navigation::{key_of, navigate, Focus, Key, Step};
use rtop_rs::pages::{check_page, error_display, problem_message, split_widget_name, PageProblem};
use rtop_rs::plugin::Plugin;
use rtop_rs::process_table::ProcessTable;

fn pane(height: i32, width: i32, x: i32, y: i32) -> Pane {
    Pane { height, width, x, y }
}

#[test]
fn one_widget_has_the_whole_area() {
    let panes = pane_layout(22, 80, 1);
    assert_eq!(panes.len(), 4);
    assert_eq!(panes[0], pane(22, 80, 0, 1));
}

#[test]
fn two_widgets_lie_one_above_the_other() {
    let panes = pane_layout(23, 80, 2);
    assert_eq!(panes[0], pane(11, 80, 0, 1));
    assert_eq!(panes[1], pane(12, 80, 0, 12));
}

#[test]
fn three_widgets_share_the_lower_half() {
    let panes = pane_layout(23, 81, 3);
    assert_eq!(panes[0], pane(11, 81, 0, 1));
    assert_eq!(panes[1], pane(12, 41, 0, 12));
    assert_eq!(panes[2], pane(12, 40, 41, 12));
}

#[test]
fn four_widgets_take_a_quarter_each() {
    let panes = pane_layout(23, 81, 4);
    assert_eq!(
        panes,
        vec![pane(11, 40, 0, 1), pane(11, 41, 40, 1), pane(12, 40, 0, 12), pane(12, 41, 40, 12)]
    );
}

#[test]
fn layout_of_odd_counts_and_sizes() {
    assert_eq!(pane_layout(0, 0, 0)[0], pane(0, 0, 0, 1));
    assert_eq!(pane_layout(0, 0, 4), vec![pane(0, 0, 0, 1); 4]);
    assert_eq!(pane_layout(10, 10, 7)[0], pane(5, 10, 0, 1));
    assert_eq!(pane_layout(-3, -3, 3)[1], pane(-2, -1, 0, 0));
    assert_eq!(pane_layout(i32::MAX - 1, i32::MAX, 1)[3], pane(0, 0, i32::MAX, i32::MAX));
    assert_eq!(pane_layout(i32::MAX, 10, 2)[1], pane(1073741824, 10, 0, 1073741824));
}

#[test]
fn keys_are_told_apart() {
    let kind = |code: i32| key_of(code, 261, 260, 410);
    assert_eq!(kind(261), Key::Right);
    assert_eq!(kind(260), Key::Left);
    assert_eq!(kind(410), Key::Resize);
    assert_eq!(kind(9), Key::Tab);
    assert_eq!(kind(353), Key::BackTab);
    assert_eq!(kind(90), Key::BackTab);
    assert_eq!(kind(113), Key::Quit);
    assert_eq!(kind(107), Key::Other);
    assert_eq!(kind(-1), Key::Other);
    // the terminal's codes come first
    assert_eq!(key_of(9, 9, 260, 410), Key::Right);
}

#[test]
fn pages_turn_and_stop_at_the_ends() {
    let at = |page: usize, widget: usize| Focus { page, widget };
    assert_eq!(navigate(at(1, 2), Key::Right, 3, 2), (at(2, 1), Step::TurnPage));
    assert_eq!(navigate(at(3, 2), Key::Right, 3, 2), (at(3, 1), Step::TurnPage));
    assert_eq!(navigate(at(2, 2), Key::Left, 3, 2), (at(1, 1), Step::TurnPage));
    assert_eq!(navigate(at(1, 1), Key::Left, 3, 2), (at(1, 1), Step::TurnPage));
    assert_eq!(navigate(at(1, 1), Key::Left, 3, 0), (at(1, 1), Step::TurnPage));
}

#[test]
fn focus_moves_between_the_widgets_that_take_it() {
    let at = |page: usize, widget: usize| Focus { page, widget };
    assert_eq!(navigate(at(1, 1), Key::Tab, 3, 3), (at(1, 2), Step::Refocus));
    assert_eq!(navigate(at(1, 3), Key::Tab, 3, 3), (at(1, 3), Step::Refocus));
    assert_eq!(navigate(at(1, 3), Key::BackTab, 3, 3), (at(1, 2), Step::Refocus));
    assert_eq!(navigate(at(1, 1), Key::BackTab, 3, 3), (at(1, 1), Step::Refocus));
    assert_eq!(navigate(at(1, 1), Key::Tab, 3, 0), (at(1, 0), Step::Refocus));
    assert_eq!(navigate(at(2, 1), Key::Other, 3, 1), (at(2, 1), Step::Forward));
    assert_eq!(navigate(at(2, 1), Key::Other, 3, 0), (at(2, 0), Step::Ignore));
    assert_eq!(navigate(at(2, 1), Key::Resize, 3, 1), (at(2, 1), Step::Redraw));
    assert_eq!(navigate(at(2, 1), Key::Quit, 3, 1), (at(2, 1), Step::Quit));
}

#[test]
fn pages_hold_one_to_four_widgets() {
    assert_eq!(check_page(0), Some(PageProblem::NoWidget));
    assert_eq!(check_page(1), None);
    assert_eq!(check_page(4), None);
    assert_eq!(check_page(5), Some(PageProblem::TooManyWidgets));
    assert_eq!(
        problem_message(PageProblem::TooManyWidgets),
        "You cannot have more than 4 widgets per pages"
    );
    assert_eq!(problem_message(PageProblem::NoWidget), "You must add a widget to this page");
}

#[test]
fn widget_names_split_at_the_dot() {
    let split = |name: &str| {
        let (plugin, widget) = split_widget_name(&name.chars().collect());
        (plugin.into_iter().collect::<String>(), widget.map(|w| w.into_iter().collect::<String>()))
    };
    assert_eq!(split("myplugin.clock"), ("myplugin".to_string(), Some("clock".to_string())));
    assert_eq!(split("a.b.c"), ("a".to_string(), Some("b".to_string())));
    assert_eq!(split("abc"), ("abc".to_string(), None));
    assert_eq!(split(""), ("".to_string(), None));
    assert_eq!(split(".x"), ("".to_string(), Some("x".to_string())));
    assert_eq!(split("x."), ("x".to_string(), Some("".to_string())));
}

#[test]
fn error_text_stands_in_the_middle() {
    assert_eq!(
        error_display("boom", 10, 40),
        format!("\n\n\n\n\n{}An error occured: boom", " ".repeat(9))
    );
    assert_eq!(error_display("boom", 3, 10), "\nAn error occured: boom");
    assert_eq!(error_display("", -4, -4), "An error occured: ");
    assert_eq!(error_display("é", 0, 41), format!("{}An error occured: é", " ".repeat(11)));
}

fn process(name: &str, cpu: &str, count: &str, memory: &str) -> ListItem {
    ListItem::new(
        name,
        &vec![
            ("CPU %".to_string(), cpu.to_string()),
            ("Count".to_string(), count.to_string()),
            ("Memory %".to_string(), memory.to_string()),
        ],
    )
}

fn processes() -> Vec<ListItem> {
    vec![
        process("bash", "0.5", "3", "1.2"),
        process("firefox", "12.0", "25", "30.4"),
        process("Xorg", "3.1", "1", "2.0"),
    ]
}

#[test]
fn process_table_shows_and_sorts() {
    let mut table = ProcessTable::new();
    assert_eq!(
        table.display(5, 40, &processes()),
        "Name            CPU %  Count  Memory %  \n[[EFFECT_REVERSE]]bash            0.5    3      1.2       [[EFFECT_REVERSE]]\nfirefox         12.0   25     30.4      \nXorg            3.1    1      2.0       \n"
    );
    assert_eq!(table.on_input("m"), None);
    assert_eq!(table.on_input("KEY_DOWN"), None);
    assert_eq!(
        table.display(5, 40, &processes()),
        "Name            CPU %  Count  Memory %  \nfirefox         12.0   25     30.4      \n[[EFFECT_REVERSE]]Xorg            3.1    1      2.0       [[EFFECT_REVERSE]]\nbash            0.5    3      1.2       \n"
    );
    assert_eq!(table.on_input("C"), None);
    let by_count = table.display(5, 40, &processes());
    assert!(by_count.find("firefox").unwrap() < by_count.find("bash").unwrap());
    assert!(by_count.find("bash").unwrap() < by_count.find("Xorg").unwrap());
    assert_eq!(table.on_input("c"), None);
    let by_cpu = table.display(5, 40, &processes());
    assert!(by_cpu.find("Xorg").unwrap() < by_cpu.find("bash").unwrap());
    assert_eq!(table.on_input("n"), None);
    let by_name = table.display(5, 40, &processes());
    assert!(by_name.find("bash").unwrap() < by_name.find("firefox").unwrap());
    assert!(by_name.find("firefox").unwrap() < by_name.find("Xorg").unwrap());
}

#[test]
fn process_table_keys_move_the_cursor() {
    let mut table = ProcessTable::new();
    table.display(5, 40, &processes());
    let selected = |table: &mut ProcessTable| {
        let text = table.display(5, 40, &processes());
        let start = text.find("[[EFFECT_REVERSE]]").unwrap() + "[[EFFECT_REVERSE]]".len();
        text[start..].split(' ').next().unwrap().to_string()
    };
    assert_eq!(selected(&mut table), "bash");
    table.on_input("k");
    assert_eq!(selected(&mut table), "firefox");
    table.on_input("G");
    assert_eq!(selected(&mut table), "Xorg");
    table.on_input("j");
    assert_eq!(selected(&mut table), "firefox");
    table.on_input("KEY_UP");
    assert_eq!(selected(&mut table), "bash");
    table.on_input("G");
    table.on_input("g");
    assert_eq!(selected(&mut table), "bash");
    table.on_input("x");
    assert_eq!(selected(&mut table), "bash");
}

#[test]
fn kill_needs_two_presses_in_a_row() {
    let mut table = ProcessTable::new();
    table.display(5, 40, &processes());
    table.on_input("k");
    assert_eq!(table.on_input("d"), None);
    assert_eq!(table.on_input("d"), Some("firefox".to_string()));
    assert_eq!(table.on_input("d"), None);
    assert_eq!(table.on_input("k"), None);
    assert_eq!(table.on_input("d"), None);
    assert_eq!(table.on_input("d"), Some("Xorg".to_string()));
    let mut empty = ProcessTable::new();
    assert_eq!(empty.on_input("d"), None);
    assert_eq!(empty.on_input("d"), None);
}

#[test]
fn process_table_title() {
    assert_eq!(ProcessTable::title(0), "[0] Processes");
    assert_eq!(ProcessTable::title(12), "[12] Processes");
    assert_eq!(ProcessTable::title(1000), "[1000] Processes");
}

struct Clock {
    ticks: u32,
}

impl Plugin for Clock {
    fn display(&mut self, height: i32, width: i32) -> String {
        format!("{} {} {}", self.ticks, height, width)
    }

    fn update(&mut self) {
        self.ticks += 1;
    }
}

#[test]
fn plugin_defaults() {
    let mut clock = Clock { ticks: 0 };
    assert_eq!(clock.refresh_rate(), 333);
    clock.update();
    clock.resize(3, 4);
    clock.on_input("k".to_string());
    assert_eq!(clock.display(3, 4), "1 3 4");
}
