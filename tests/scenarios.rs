use race::process::{split_lines, ProcessData};
use race::race::{
    int_to_ptrace_event, PtraceEvent, Race, Reaction, Resume, StopSignal, TraceError, Wakeup,
};
use race::tree::Tree;
use race::tui::tv::{gen_line_prefix, gen_path_prefix, TreeView};
use race::tui::{Cell, Client, Draw, Frame, DARK_GREY, LIGHT_GREY, WHITE};
use race::util::{Point, Rect};

fn one_line(name: &str) -> Vec<String> {
    vec![name.to_string()]
}

/// Root with three one-line children.
fn flat_tree() -> Tree<Vec<String>> {
    let mut t = Tree::new(one_line("root"));
    t.insert(one_line("n1"), Some(0));
    t.insert(one_line("n2"), Some(0));
    t.insert(one_line("n3"), Some(0));
    t
}

#[test]
fn flat_tree_lines() {
    let t = flat_tree();
    let mut tv = TreeView::new(&t);
    let lines = tv.gen_lines();
    assert_eq!(
        lines,
        vec!["[+] root", "    ├── [+] n1", "    ├── [+] n2", "    └── [+] n3"]
    );
    assert_eq!(tv.lookup(), &vec![0, 1, 2, 3]);
}

#[test]
fn collapse_root_leaves_one_line() {
    let t = flat_tree();
    let mut tv = TreeView::new(&t);
    tv.handle_char(' ');
    assert_eq!(tv.gen_lines(), vec!["[-] root"]);
    assert_eq!(tv.lookup(), &vec![0]);
    assert!(!tv.is_expanded(0));
    tv.handle_char(' ');
    assert_eq!(tv.gen_lines().len(), 4);
    assert!(tv.is_expanded(0));
}

#[test]
fn two_line_node_rows() {
    let mut t = Tree::new(one_line("root"));
    t.insert(vec!["first".to_string(), "second".to_string()], Some(0));
    t.insert(one_line("last"), Some(0));
    let mut tv = TreeView::new(&t);
    let lines = tv.gen_lines();
    assert_eq!(
        lines,
        vec!["[+] root", "    ├── [+] first", "    │       second", "    └── [+] last"]
    );
    assert_eq!(lines[1].chars().count() - "first".len(), lines[2].chars().count() - "second".len());
    assert_eq!(tv.lookup(), &vec![0, 1, 1, 2]);
}

#[test]
fn gen_lines_twice_is_identical() {
    let t = flat_tree();
    let mut tv = TreeView::new(&t);
    let a = tv.gen_lines();
    let b = tv.gen_lines();
    assert_eq!(a, b);
}

#[test]
fn collapse_hides_only_descendants() {
    let mut t = Tree::new(one_line("root"));
    let a = t.insert(one_line("a"), Some(0));
    let b = t.insert(one_line("b"), Some(a));
    t.insert(one_line("c"), Some(b));
    t.insert(one_line("d"), Some(0));
    let mut tv = TreeView::new(&t);
    assert_eq!(tv.lookup(), &vec![0, 1, 2, 3, 4]);
    tv.select(1);
    tv.toggle_expand();
    assert_eq!(tv.lookup(), &vec![0, 1, 4]);
    assert_eq!(tv.lines()[1], "    ├── [-] a");
    tv.toggle_expand();
    assert_eq!(tv.lookup(), &vec![0, 1, 2, 3, 4]);
}

#[test]
fn zero_line_node_has_no_rows() {
    let mut t = Tree::new(one_line("root"));
    t.insert(Vec::new(), Some(0));
    t.insert(one_line("b"), Some(0));
    let tv = TreeView::new(&t);
    assert_eq!(tv.lines(), &vec!["[+] root".to_string(), "    └── [+] b".to_string()]);
    assert_eq!(tv.lookup(), &vec![0, 2]);
}

#[test]
fn prefixes_of_deep_paths() {
    let mut t = Tree::new(one_line("root"));
    let a = t.insert(one_line("a"), Some(0));
    let b = t.insert(one_line("b"), Some(a));
    t.insert(one_line("z"), Some(0));
    let c = t.insert(one_line("c"), Some(b));
    let tr = &t;
    assert_eq!(gen_path_prefix(&tr, &vec![0, a, b, c]), "    │           ");
    assert_eq!(gen_path_prefix(&tr, &vec![0, a]), "");
    let expanded = vec![true, false, true, true, true];
    assert_eq!(gen_line_prefix(&tr, &expanded, &vec![0, a], true), "    ├── [-] ");
    assert_eq!(gen_line_prefix(&tr, &expanded, &vec![0, a], false), "    │       ");
    assert_eq!(gen_line_prefix(&tr, &expanded, &vec![0, a, b, c], true), "    └── [+] ");
    assert_eq!(gen_line_prefix(&tr, &expanded, &vec![0, a, b, c], false), "            ");
    assert_eq!(gen_line_prefix(&tr, &expanded, &vec![0], true), "[+] ");
    assert_eq!(gen_line_prefix(&tr, &expanded, &vec![0], false), "    ");
}

fn tall_tree(n: usize) -> Tree<Vec<String>> {
    let mut t = Tree::new(one_line("root"));
    for i in 0..n {
        t.insert(one_line(&format!("child number {}", i)), Some(0));
    }
    t
}

#[test]
fn selection_and_scrolling() {
    let t = tall_tree(19);
    let mut tv = TreeView::new(&t);
    tv.update_size(Point::new(10, 8));
    // 20 rows in an 8-row viewport: scrolling stops at row 12.
    tv.scroll(0, 100);
    assert_eq!(tv.scroll_pos(), Point::new(0, 12));
    tv.scroll(0, -100);
    assert_eq!(tv.scroll_pos(), Point::new(0, 0));
    // widest row is "    ├── [+] child number 18" = 27 chars: 17 columns of scroll.
    tv.handle_char('$');
    assert_eq!(tv.scroll_pos().x, 17);
    tv.handle_char('0');
    assert_eq!(tv.scroll_pos().x, 0);
    tv.handle_char('l');
    assert_eq!(tv.scroll_pos().x, 2);
    tv.handle_char('h');
    assert_eq!(tv.scroll_pos().x, 0);
    // moving the selection down keeps a margin of 2 rows at the bottom.
    for _ in 0..6 {
        tv.handle_char('j');
    }
    assert_eq!(tv.selected_line(), 6);
    assert_eq!(tv.scroll_pos().y, 1);
    tv.handle_char('G');
    assert_eq!(tv.selected_line(), 19);
    assert_eq!(tv.scroll_pos().y, 12);
    tv.handle_char('g');
    assert_eq!(tv.selected_line(), 0);
    assert_eq!(tv.scroll_pos().y, 0);
    tv.handle_char('d');
    assert_eq!(tv.selected_line(), 2);
    tv.handle_char('u');
    assert_eq!(tv.selected_line(), 0);
    tv.handle_char('k');
    assert_eq!(tv.selected_line(), 0);
}

#[test]
fn collapse_reclamps_selection() {
    let t = tall_tree(5);
    let mut tv = TreeView::new(&t);
    tv.update_size(Point::new(40, 3));
    tv.handle_char('G');
    assert_eq!(tv.selected_line(), 5);
    tv.handle_char('g');
    tv.handle_char(' ');
    assert_eq!(tv.lines().len(), 1);
    assert_eq!(tv.selected_line(), 0);
    assert_eq!(tv.scroll_pos(), Point::new(0, 0));
}

#[test]
fn draw_paints_visible_rows() {
    let t = flat_tree();
    let mut tv = TreeView::new(&t);
    let mut frame = Frame::new(Point::new(6, 3));
    let rect = Rect::new(Point::new(0, 0), Point::new(5, 2));
    tv.draw(&rect, &mut frame);
    assert!(!tv.dirty());
    let row = |y: i32| -> String {
        frame.cells()[(y * 6) as usize..(y * 6 + 6) as usize].iter().map(|c| c.c).collect()
    };
    assert_eq!(row(0), "[+] ro");
    assert_eq!(row(1), "    ├─");
    assert_eq!(row(2), "    ├─");
    assert_eq!(frame.cells()[0].bg, LIGHT_GREY);
    assert_eq!(frame.cells()[6].bg, DARK_GREY);
    assert_eq!(frame.cells()[6].fg, WHITE);
    tv.handle_char('j');
    assert!(tv.dirty());
}

#[test]
fn frame_cells() {
    let mut f = Frame::new(Point::new(3, 2));
    assert_eq!(f.cells().len(), 6);
    assert_eq!(f.cells()[4].pos, Point::new(1, 1));
    f.add(Cell::new(Point::new(2, 1), 'x'));
    assert_eq!(f.cells()[5].c, 'x');
    f.cell_mut(Point::new(0, 0)).c = 'y';
    f.clear_rect(&Rect::new(Point::new(1, 1), Point::new(2, 1)));
    assert_eq!(f.cells()[5].c, ' ');
    assert_eq!(f.cells()[0].c, 'y');
    let mut c = Cell::new(Point::new(0, 0), 'q');
    c.bg = 1;
    c.clear();
    assert_eq!((c.c, c.fg, c.bg), (' ', WHITE, DARK_GREY));
}

#[test]
fn rect_points_row_by_row() {
    let r = Rect::new(Point::new(1, 2), Point::new(2, 3));
    assert_eq!(
        r.points(),
        vec![Point::new(1, 2), Point::new(2, 2), Point::new(1, 3), Point::new(2, 3)]
    );
    assert!(Rect::new(Point::new(1, 1), Point::new(0, 1)).points().is_empty());
    let p = Point::new(1, 2).add(Point::new(3, 4));
    assert_eq!(p, Point::new(4, 6));
    assert_eq!(p.sub(Point::new(1, 1)), Point::new(3, 5));
    let mut q = p;
    q.add_assign(Point::new(-4, -6));
    assert_eq!(q, Point::new(0, 0));
}

#[test]
fn tree_links_and_siblings() {
    let mut t = Tree::new("root");
    let a = t.insert("a", Some(0));
    let orphan = t.insert("o", None);
    let b = t.insert("b", Some(0));
    assert_eq!(t.num_nodes(), 4);
    assert_eq!(t.next_sibling(a), Some(b));
    assert_eq!(t.next_sibling(b), None);
    assert_eq!(t.next_sibling(0), None);
    assert_eq!(t.next_sibling(orphan), None);
    assert_eq!(t.paths(), vec![vec![0], vec![0, a], vec![0, b]]);
    t.set_parent(orphan, a);
    assert_eq!(t.get(orphan).parent(), Some(a));
    assert_eq!(t.get(a).children(), &vec![orphan]);
    assert_eq!(t.paths(), vec![vec![0], vec![0, a], vec![0, a, orphan], vec![0, b]]);
    let mut it = t.iter();
    assert_eq!(it.next(), Some(vec![0]));
    assert_eq!(it.next(), Some(vec![0, a]));
    assert_eq!(it.next(), Some(vec![0, a, orphan]));
    assert_eq!(it.next(), Some(vec![0, b]));
    assert_eq!(it.next(), None);
    *t.get_mut(b).data_mut() = "bee";
    assert_eq!(*t.get(b).data(), "bee");
}

#[test]
fn child_linked_before_its_parent_reports_it() {
    let mut t = Tree::new("root");
    let c = t.insert("child", None);
    let p = t.insert("parent", Some(0));
    t.set_parent(c, p);
    assert_eq!(t.paths(), vec![vec![0], vec![0, p], vec![0, p, c]]);
    assert_eq!(t.next_sibling(c), None);
}

#[test]
fn cmdline_is_cleaned() {
    let mut d = ProcessData::new(7);
    assert_eq!(d.cmdline(), "UNKNOWN");
    d.set_raw_cmdline("sleep\u{0}10\u{0}");
    assert_eq!(d.cmdline(), "sleep 10");
    assert_eq!(d.pid(), 7);
    d.set_raw_cmdline("  \u{0}echo\u{0}a b\n");
    assert_eq!(d.cmdline(), "echo a b");
}

#[test]
fn text_is_split_into_lines() {
    assert_eq!(split_lines(""), Vec::<String>::new());
    assert_eq!(split_lines("a\nb\n"), vec!["a", "b"]);
    assert_eq!(split_lines("a\r\nb"), vec!["a", "b"]);
    assert_eq!(split_lines("a\n\nb\r"), vec!["a", "", "b\r"]);
}

#[test]
fn event_codes() {
    assert_eq!(int_to_ptrace_event(1), PtraceEvent::Fork);
    assert_eq!(int_to_ptrace_event(3), PtraceEvent::Clone);
    assert_eq!(int_to_ptrace_event(4), PtraceEvent::Exec);
    assert_eq!(int_to_ptrace_event(7), PtraceEvent::Seccomp);
}

fn plain() -> Result<Reaction, TraceError> {
    Ok(Reaction { set_options: false, read_cmdline: false, resume: Some(Resume::Plain) })
}

fn options_and_cmdline() -> Result<Reaction, TraceError> {
    Ok(Reaction { set_options: true, read_cmdline: true, resume: Some(Resume::Plain) })
}

#[test]
fn trace_one_fork() {
    let mut race = Race::new(100);
    assert_eq!(race.handle_wakeup(Wakeup::Stopped { pid: 100, signal: StopSignal::Trap }), options_and_cmdline());
    race.update_cmdline(100, "sh\u{0}-c\u{0}true &\u{0}").unwrap();
    assert_eq!(race.handle_wakeup(Wakeup::PtraceEvent { pid: 100, event: 1, message: 101 }), plain());
    assert_eq!(race.handle_wakeup(Wakeup::Stopped { pid: 101, signal: StopSignal::Stop }), options_and_cmdline());
    race.update_cmdline(101, "true\u{0}").unwrap();
    assert_eq!(race.handle_wakeup(Wakeup::Exited { pid: 101 }), Ok(Reaction { set_options: false, read_cmdline: false, resume: None }));
    assert_eq!(race.handle_wakeup(Wakeup::Exited { pid: 100 }), Ok(Reaction { set_options: false, read_cmdline: false, resume: None }));

    let tree = race.tree();
    assert_eq!(tree.num_nodes(), 2);
    assert_eq!(tree.get(1).parent(), Some(0));
    assert_eq!(tree.get(0).data().cmdline(), "sh -c true &");
    assert_eq!(tree.get(1).data().cmdline(), "true");
    assert_ne!(tree.get(1).data().cmdline(), "UNKNOWN");
    assert_eq!(tree.get(1).data().pid(), 101);
}

#[test]
fn child_stop_before_fork_event() {
    let mut race = Race::new(1);
    assert_eq!(race.handle_wakeup(Wakeup::Stopped { pid: 2, signal: StopSignal::Stop }), options_and_cmdline());
    assert_eq!(race.node_of(2), Some(1));
    assert_eq!(race.tree().get(1).parent(), None);
    assert_eq!(race.handle_wakeup(Wakeup::PtraceEvent { pid: 1, event: 3, message: 2 }), plain());
    assert_eq!(race.tree().num_nodes(), 2);
    assert_eq!(race.tree().get(1).parent(), Some(0));
    assert_eq!(race.tree().get(0).children(), &vec![1]);
    // The same report again cannot link the child a second time.
    assert_eq!(race.handle_wakeup(Wakeup::PtraceEvent { pid: 1, event: 3, message: 2 }), Err(TraceError::AlreadyLinked(2)));
}

#[test]
fn other_wakeups() {
    let mut race = Race::new(1);
    assert_eq!(
        race.handle_wakeup(Wakeup::Stopped { pid: 1, signal: StopSignal::Other(10) }),
        Ok(Reaction { set_options: false, read_cmdline: false, resume: Some(Resume::WithSignal(10)) })
    );
    assert_eq!(race.handle_wakeup(Wakeup::PtraceEvent { pid: 1, event: 4, message: 0 }),
        Ok(Reaction { set_options: false, read_cmdline: true, resume: Some(Resume::Plain) }));
    assert_eq!(race.handle_wakeup(Wakeup::PtraceEvent { pid: 1, event: 6, message: 0 }), plain());
    assert_eq!(race.handle_wakeup(Wakeup::PtraceSyscall { pid: 1 }), plain());
    assert_eq!(race.handle_wakeup(Wakeup::Signaled { pid: 1 }), Ok(Reaction { set_options: false, read_cmdline: false, resume: None }));
    assert_eq!(race.tree().num_nodes(), 1);
}

#[test]
fn rejected_wakeups() {
    let mut race = Race::new(1);
    assert_eq!(race.handle_wakeup(Wakeup::Stopped { pid: 9, signal: StopSignal::Trap }), Err(TraceError::UnknownPid(9)));
    assert_eq!(race.handle_wakeup(Wakeup::PtraceEvent { pid: 9, event: 1, message: 3 }), Err(TraceError::UnknownPid(9)));
    assert_eq!(race.handle_wakeup(Wakeup::PtraceEvent { pid: 1, event: 8, message: 3 }), Err(TraceError::InvalidEvent(8)));
    assert_eq!(race.handle_wakeup(Wakeup::PtraceEvent { pid: 1, event: 1, message: 1 }), Err(TraceError::AlreadyLinked(1)));
    assert_eq!(race.update_cmdline(9, "x"), Err(TraceError::UnknownPid(9)));
    assert_eq!(race.tree().num_nodes(), 1);
    assert_eq!(race.node_of(9), None);
}

#[test]
fn process_tree_renders_cmdlines() {
    let mut race = Race::new(5);
    race.update_cmdline(5, "make\u{0}all").unwrap();
    race.handle_wakeup(Wakeup::PtraceEvent { pid: 5, event: 2, message: 6 }).unwrap();
    race.update_cmdline(6, "cc\u{0}-c\u{0}x.c").unwrap();
    let tree = race.into_tree();
    let mut tv = TreeView::new(&tree);
    assert_eq!(tv.gen_lines(), vec!["[+] make all", "    └── [+] cc -c x.c"]);
}
