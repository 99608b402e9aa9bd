use dutree::render::band;
use dutree::render::render;
use dutree::render::sort_order;
use dutree::render::RenderOptions;
use dutree::report::header_line;
use dutree::report::summary_lines;
use dutree::report::table_header;
use dutree::tree::walk;
use dutree::tree::FsEntry;
use dutree::tree::DirNode;

fn file(name: &str, size: u64) -> FsEntry {
    FsEntry::File { name: name.to_string(), size }
}

fn dir(name: &str, entries: Vec<FsEntry>) -> FsEntry {
    FsEntry::Dir { name: name.to_string(), entries }
}

fn options() -> RenderOptions {
    RenderOptions {
        sort_descending: false,
        row_limit: 25,
        child_limit: 25,
        expand_children: false,
        show_all: false,
    }
}

fn tree_of(root: FsEntry) -> DirNode {
    walk(&root).0.expect("a directory root builds a node")
}

#[test]
fn row_limit_of_one_leaves_one_row_and_one_marker() {
    let tree = tree_of(dir(
        "root",
        vec![
            dir("d1", vec![file("a", 30)]),
            dir("d2", vec![file("b", 20)]),
            dir("d3", vec![file("c", 10)]),
        ],
    ));
    let mut opts = options();
    opts.row_limit = 1;
    let rows = render(&tree, &opts);
    assert_eq!(rows.len(), 2);
    assert!(!rows[0].marker);
    assert_eq!(rows[0].generation, 1);
    assert_eq!(rows[0].text, "30 bytes    0\t--d1");
    assert!(rows[1].marker);
    assert_eq!(rows[1].generation, 1);
    assert_eq!(rows[1].text, "--... other child dirs are included");
}

#[test]
fn all_rows_fit_under_a_roomy_limit() {
    let tree = tree_of(dir(
        "root",
        vec![dir("d1", vec![file("a", 30)]), dir("d2", vec![])],
    ));
    let rows = render(&tree, &options());
    assert_eq!(rows.len(), 2);
    assert!(rows.iter().all(|r| !r.marker));
}

#[test]
fn empty_tree_renders_no_rows() {
    let tree = tree_of(dir("root", vec![]));
    let rows = render(&tree, &options());
    assert_eq!(rows.len(), 0);
}

#[test]
fn show_all_disables_the_limits() {
    let entries: Vec<FsEntry> = (0..30).map(|i| dir(&format!("d{}", i), vec![])).collect();
    let tree = tree_of(dir("root", entries));
    let mut opts = options();
    opts.row_limit = 3;
    opts.show_all = true;
    let rows = render(&tree, &opts);
    assert_eq!(rows.len(), 30);
    assert!(rows.iter().all(|r| !r.marker));
}

#[test]
fn sorting_is_descending_and_stable() {
    let tree = tree_of(dir(
        "root",
        vec![
            dir("small", vec![file("a", 5)]),
            dir("first-ten", vec![file("b", 10)]),
            dir("second-ten", vec![file("c", 10)]),
            dir("tiny", vec![file("d", 1)]),
        ],
    ));
    let mut opts = options();
    opts.sort_descending = true;
    let rows = render(&tree, &opts);
    let names: Vec<&str> = rows.iter().map(|r| r.text.rsplit('\t').next().unwrap()).collect();
    assert_eq!(
        names,
        vec!["--first-ten", "--second-ten", "--small", "--tiny"]
    );
}

#[test]
fn sort_order_ranks_by_size_then_position() {
    let ord = sort_order(&vec![5u64, 10, 10, 1]);
    assert_eq!(ord, vec![1usize, 2, 0, 3]);
}

#[test]
fn expansion_recurses_and_honours_the_child_limit() {
    let tree = tree_of(dir(
        "root",
        vec![dir(
            "a",
            vec![
                dir("x", vec![file("f", 1)]),
                dir("y", vec![file("g", 1)]),
                dir("z", vec![file("h", 1)]),
            ],
        )],
    ));
    let mut opts = options();
    opts.expand_children = true;
    opts.child_limit = 2;
    let rows = render(&tree, &opts);
    assert_eq!(rows.len(), 4);
    assert_eq!(rows[0].generation, 1);
    assert!(!rows[0].marker);
    assert_eq!(rows[1].generation, 2);
    assert_eq!(rows[2].generation, 2);
    assert!(!rows[2].marker);
    assert_eq!(rows[3].generation, 2);
    assert!(rows[3].marker);
    assert_eq!(rows[3].text, "----... other child dirs are included");
}

#[test]
fn global_row_limit_spans_nesting_levels() {
    let tree = tree_of(dir(
        "root",
        vec![
            dir("a", vec![dir("x", vec![file("f", 1)])]),
            dir("b", vec![]),
        ],
    ));
    let mut opts = options();
    opts.expand_children = true;
    opts.row_limit = 2;
    let rows = render(&tree, &opts);
    // Rows: "a" at the top level, "x" beneath it, then the limit stops the
    // top level with a marker.
    assert_eq!(rows.len(), 3);
    assert!(!rows[0].marker);
    assert!(!rows[1].marker);
    assert_eq!(rows[1].generation, 2);
    assert!(rows[2].marker);
    assert_eq!(rows[2].generation, 1);
    // Even under expansion, top-level directory rows stay within the limit.
    let top_rows = rows.iter().filter(|r| r.generation == 1 && !r.marker).count();
    assert!(top_rows <= 2);
    assert_eq!(top_rows, 1);
}

#[test]
fn bands_follow_the_five_point_tiers() {
    assert_eq!(band(0, 100), 0);
    assert_eq!(band(5, 100), 0);
    assert_eq!(band(6, 100), 1);
    assert_eq!(band(10, 100), 1);
    assert_eq!(band(11, 100), 2);
    assert_eq!(band(15, 100), 2);
    assert_eq!(band(16, 100), 3);
    assert_eq!(band(20, 100), 3);
    assert_eq!(band(21, 100), 4);
    assert_eq!(band(100, 100), 4);
}

#[test]
fn an_empty_maximum_stays_in_the_lowest_band() {
    assert_eq!(band(0, 0), 0);
    assert_eq!(band(7, 0), 0);
}

#[test]
fn rows_carry_their_band_tier() {
    let tree = tree_of(dir(
        "root",
        vec![
            dir("big", vec![file("a", 50)]),
            dir("mid", vec![file("b", 8)]),
            dir("low", vec![file("c", 2)]),
            dir("rest", vec![file("d", 40)]),
        ],
    ));
    let rows = render(&tree, &options());
    assert_eq!(rows[0].tier, 4); // 50 of 100
    assert_eq!(rows[1].tier, 1); // 8 of 100
    assert_eq!(rows[2].tier, 0); // 2 of 100
    assert_eq!(rows[3].tier, 4); // 40 of 100
}

#[test]
fn report_lines_have_their_documented_shape() {
    assert_eq!(header_line("some/dir"), "Indexing some/dir");
    assert_eq!(table_header(), "SIZE        SUBS\tDIRECTORY");
    let (first, second) = summary_lines(3, 1500, 1234567);
    assert_eq!(first, "3 files indexed at 1.500s");
    assert_eq!(second, "1.234 Mb (1,234,567 bytes)");
}
