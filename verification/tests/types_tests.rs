use dutree::browser::dir_line;
use dutree::browser::file_line;
use dutree::browser::print_neatly;
use dutree::types::Cursor;
use dutree::types::DirMetaData;
use dutree::types::FileMetaData;
use dutree::types::MemoryCache;
use dutree::types::ViewCommand;

#[test]
fn a_fresh_cursor_starts_at_the_top() {
    let c = Cursor::new();
    assert_eq!(c.pointer, 0);
    assert_eq!(c.index, 0);
    assert!(matches!(c.command, ViewCommand::Idle));
    assert!(c.is_hovered());
}

#[test]
fn the_cursor_stays_within_the_laid_out_rows() {
    let mut c = Cursor::new();
    c.move_up();
    assert_eq!(c.pointer, 0);
    c.move_down();
    assert_eq!(c.pointer, 0);
    c.increase_index();
    c.increase_index();
    c.move_down();
    assert_eq!(c.pointer, 1);
    c.move_down();
    assert_eq!(c.pointer, 2);
    c.move_up();
    assert_eq!(c.pointer, 1);
    assert!(!c.is_hovered());
    c.reset_index();
    assert_eq!(c.index, 0);
    assert_eq!(c.pointer, 1);
}

#[test]
fn commands_are_set_and_cleared() {
    let mut c = Cursor::new();
    c.set_command(ViewCommand::Open);
    assert!(matches!(c.command, ViewCommand::Open));
    c.set_command(ViewCommand::Size);
    assert!(matches!(c.command, ViewCommand::Size));
    c.reset_command();
    assert!(matches!(c.command, ViewCommand::Idle));
}

fn sample_cache() -> MemoryCache {
    let mut root = MemoryCache::new();
    root.add_entries(
        vec![FileMetaData { name: "readme".to_string(), size: 10 }],
        vec![
            DirMetaData::new("/root/alpha".to_string(), "alpha".to_string()),
            DirMetaData::new("/root/beta".to_string(), "beta".to_string()),
        ],
    );
    root.add_entries_at(
        &"/root/alpha".to_string(),
        vec![FileMetaData { name: "inner".to_string(), size: 5 }],
        vec![DirMetaData::new("/root/alpha/deep".to_string(), "deep".to_string())],
    );
    root
}

#[test]
fn a_fresh_cache_is_empty_and_folded() {
    let c = MemoryCache::new();
    assert!(c.is_empty());
    assert!(!c.is_open());
}

#[test]
fn added_entries_land_in_order() {
    let c = sample_cache();
    assert!(!c.is_empty());
    assert_eq!(c.files.len(), 1);
    assert_eq!(c.files[0].name, "readme");
    assert_eq!(c.dirs.len(), 2);
    assert_eq!(c.dirs[0].name, "alpha");
    assert_eq!(c.dirs[1].name, "beta");
    assert_eq!(c.dirs[0].size, None);
}

#[test]
fn find_reaches_nested_listings() {
    let c = sample_cache();
    let alpha = c.find(&"/root/alpha".to_string()).expect("alpha is cached");
    assert_eq!(alpha.files.len(), 1);
    assert_eq!(alpha.files[0].name, "inner");
    assert_eq!(alpha.dirs.len(), 1);
    let deep = c.find(&"/root/alpha/deep".to_string()).expect("deep is cached");
    assert!(deep.is_empty());
    assert!(c.find(&"/root/missing".to_string()).is_none());
}

#[test]
fn add_entries_at_misses_leave_the_cache_alone() {
    let mut c = sample_cache();
    let found = c.add_entries_at(
        &"/root/nowhere".to_string(),
        vec![FileMetaData { name: "stray".to_string(), size: 1 }],
        vec![],
    );
    assert!(!found);
    assert_eq!(c.files.len(), 1);
    assert_eq!(c.dirs.len(), 2);
    assert!(c.find(&"/root/alpha".to_string()).unwrap().files.len() == 1);
}

#[test]
fn toggle_at_flips_only_the_named_listing() {
    let mut c = sample_cache();
    let found = c.toggle_at(&"/root/alpha".to_string());
    assert!(found);
    assert!(c.find(&"/root/alpha".to_string()).unwrap().is_open());
    assert!(!c.find(&"/root/beta".to_string()).unwrap().is_open());
    assert!(!c.is_open());
    let found_again = c.toggle_at(&"/root/alpha".to_string());
    assert!(found_again);
    assert!(!c.find(&"/root/alpha".to_string()).unwrap().is_open());
    assert!(!c.toggle_at(&"/root/missing".to_string()));
}

#[test]
fn toggling_a_cache_flips_its_own_flag() {
    let mut c = MemoryCache::new();
    c.toggle();
    assert!(c.is_open());
    c.toggle();
    assert!(!c.is_open());
}

#[test]
fn browser_rows_mark_the_hovered_entry() {
    assert_eq!(dir_line("src", true, 2), "   > src");
    assert_eq!(dir_line("src", false, 2), "   + src");
    assert_eq!(dir_line("src", false, 0), " + src");
}

#[test]
fn file_rows_right_align_the_size() {
    let line = file_line("notes", 10, true, 2);
    assert_eq!(line.len(), 90);
    assert!(line.starts_with(">   notes"));
    assert!(line.ends_with("10 bytes"));
    let plain = file_line("notes", 10, false, 0);
    assert!(plain.starts_with("  notes"));
    assert_eq!(plain.len(), 90);
}

#[test]
fn neat_rows_saturate_instead_of_failing() {
    let long_head = "h".repeat(95);
    let line = print_neatly(&long_head, "tail");
    assert_eq!(line.len(), 99);
    assert!(line.ends_with("tail"));
}

#[test]
fn browse_rows_lays_out_dirs_then_files() {
    let mut c = sample_cache();
    c.toggle_at(&"/root/alpha".to_string());
    let mut cursor = Cursor::new();
    let mut rows: Vec<String> = Vec::new();
    let mut hovered: Option<String> = None;
    dutree::browser::browse_rows(&c, &mut cursor, 0, &mut rows, &mut hovered);
    // alpha (hovered), its unfolded listing (deep, then inner), beta, readme.
    assert_eq!(rows.len(), 5);
    assert_eq!(rows[0], " > alpha");
    assert_eq!(rows[1], "   + deep");
    assert!(rows[2].starts_with("    inner"));
    assert!(rows[2].ends_with("5 bytes"));
    assert_eq!(rows[3], " + beta");
    assert!(rows[4].starts_with("  readme"));
    assert_eq!(cursor.index, 5);
    assert_eq!(hovered.as_deref(), Some("/root/alpha"));
}
