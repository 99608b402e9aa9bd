//! The text of the interactive browser's rows.
//!
//! One row per cached entry: directories carry a fold marker, files carry
//! their size right-aligned in a fixed-width line.  The hovered row is
//! marked with `>`.

use vstd::prelude::*;
use vstd::string::StringExecFns;
use vstd::string::StrSliceExecFns;
use crate::display_u64_as_file_size::file_size_view;
use crate::display_u64_as_file_size::DisplayFileSize;
use crate::text::push_char;
use crate::text::push_repeat;
use crate::text::repeat_char;
use crate::types::CacheModel;
use crate::types::Cursor;
use crate::types::DirMetaData;
use crate::types::FileMetaData;
use crate::types::DirModel;
use crate::types::FileModel;
use crate::types::MemoryCache;
use crate::types::dir_model;
use crate::types::dirs_model;
use crate::types::file_model;
use crate::types::lemma_dirs_model_index;

verus! {

/// The width a browser row is padded to before its right-aligned tail.
pub const ROW_WIDTH: usize = 90;

/// A row of `head`, then spaces out to the row width, then `tail`; no spaces
/// when the two parts already fill the row.
pub open spec fn neat_view(head: Seq<char>, tail: Seq<char>) -> Seq<char> {
    head + repeat_char(
        if head.len() + tail.len() < ROW_WIDTH {
            (ROW_WIDTH - head.len() - tail.len()) as nat
        } else {
            0
        },
        ' ',
    ) + tail
}

/// The row of a cached directory: indentation, the fold marker — `>` when
/// hovered, `+` otherwise — and its name.
pub open spec fn dir_line_view(name: Seq<char>, hovered: bool, tail_spaces: nat) -> Seq<char> {
    seq![' '] + repeat_char(tail_spaces, ' ') + seq![
        if hovered {
            '>'
        } else {
            '+'
        },
        ' ',
    ] + name
}

/// The row of a cached file: the hover marker, indentation, its name, and
/// its formatted size right-aligned at the row width.
pub open spec fn file_line_view(
    name: Seq<char>,
    size: nat,
    hovered: bool,
    tail_spaces: nat,
) -> Seq<char> {
    neat_view(
        seq![
            if hovered {
                '>'
            } else {
                ' '
            },
        ] + repeat_char(tail_spaces, ' ') + seq![' '] + name,
        file_size_view(size),
    )
}

/// Builds a neatly padded row of `head` and a right-aligned `tail`.
pub fn print_neatly(head: &str, tail: &str) -> (r: String)
    ensures
        r@ == neat_view(head@, tail@),
{
    let head_len = head.unicode_len();
    let tail_len = tail.unicode_len();
    let mut s = String::new();
    s.append(head);
    let pad = if head_len < ROW_WIDTH && tail_len < ROW_WIDTH - head_len {
        ROW_WIDTH - head_len - tail_len
    } else {
        0
    };
    push_repeat(&mut s, pad, ' ');
    s.append(tail);
    assert(s@ =~= neat_view(head@, tail@));
    s
}

/// Builds the browser row of a directory.
pub fn dir_line(name: &str, hovered: bool, tail_spaces: u8) -> (r: String)
    ensures
        r@ == dir_line_view(name@, hovered, tail_spaces as nat),
{
    let mut s = String::new();
    push_char(&mut s, ' ');
    push_repeat(&mut s, tail_spaces as usize, ' ');
    if hovered {
        push_char(&mut s, '>');
    } else {
        push_char(&mut s, '+');
    }
    push_char(&mut s, ' ');
    s.append(name);
    assert(s@ =~= dir_line_view(name@, hovered, tail_spaces as nat));
    s
}

/// Builds the browser row of a file.
pub fn file_line(name: &str, size: u64, hovered: bool, tail_spaces: u8) -> (r: String)
    ensures
        r@ == file_line_view(name@, size as nat, hovered, tail_spaces as nat),
{
    let mut head = String::new();
    if hovered {
        push_char(&mut head, '>');
    } else {
        push_char(&mut head, ' ');
    }
    push_repeat(&mut head, tail_spaces as usize, ' ');
    push_char(&mut head, ' ');
    head.append(name);
    let size_str = size.display_as_file_size();
    let r = print_neatly(head.as_str(), size_str.as_str());
    assert(r@ =~= file_line_view(name@, size as nat, hovered, tail_spaces as nat));
    r
}

/// The character sequences of a sequence of strings.
pub open spec fn strings_view(ss: Seq<String>) -> Seq<Seq<char>> {
    ss.map_values(|s: String| s@)
}

/// The row counter after one more row; it sticks at the top of its range.
pub open spec fn inc_row(index: nat) -> nat {
    if index < 255 {
        index + 1
    } else {
        index
    }
}

/// The indentation of the next nesting level: two more columns, capped.
pub open spec fn inc_indent(tail: nat) -> nat {
    if tail <= 253 {
        tail + 2
    } else {
        255
    }
}

/// The rows of the cached files from place `k` on, and the row counter
/// afterwards.
pub open spec fn browse_files_model(
    fs: Seq<FileModel>,
    k: nat,
    pointer: nat,
    index: nat,
    tail: nat,
) -> (Seq<Seq<char>>, nat)
    decreases fs.len() - k,
{
    if k >= fs.len() {
        (Seq::<Seq<char>>::empty(), index)
    } else {
        let row = file_line_view(fs[k as int].name, fs[k as int].size as nat, index == pointer, tail);
        let (rest, i2) = browse_files_model(fs, k + 1, pointer, inc_row(index), tail);
        (seq![row] + rest, i2)
    }
}

/// The rows of the cached directories from place `k` on: each directory's
/// own row, then — when it is unfolded and has entries — the rows of its
/// listing two columns deeper.  Also the row counter afterwards and the
/// identifier of the hovered directory, if one of these rows is hovered.
pub open spec fn browse_dirs_model(
    ds: Seq<DirModel>,
    k: nat,
    pointer: nat,
    index: nat,
    tail: nat,
) -> (Seq<Seq<char>>, nat, Option<Seq<char>>)
    decreases ds, ds.len() - k,
{
    if k >= ds.len() {
        (Seq::<Seq<char>>::empty(), index, None::<Seq<char>>)
    } else {
        let d = ds[k as int];
        let hov = index == pointer;
        let row = dir_line_view(d.name, hov, tail);
        let i1 = inc_row(index);
        let (sub, i2, hsub) = if (d.cache.dirs.len() > 0 || d.cache.files.len() > 0)
            && d.cache.opened {
            browse_cache_model(d.cache, pointer, i1, inc_indent(tail))
        } else {
            (Seq::<Seq<char>>::empty(), i1, None::<Seq<char>>)
        };
        let (rest, i3, hrest) = browse_dirs_model(ds, k + 1, pointer, i2, tail);
        (
            seq![row] + sub + rest,
            i3,
            if hov {
                Some(d.id)
            } else if hsub is Some {
                hsub
            } else {
                hrest
            },
        )
    }
}

/// The rows of a whole cached listing: its directories first, then its
/// files, exactly as the browser lays them out.
pub open spec fn browse_cache_model(m: CacheModel, pointer: nat, index: nat, tail: nat) -> (
    Seq<Seq<char>>,
    nat,
    Option<Seq<char>>,
)
    decreases m, 0int,
{
    let (dir_rows, i1, hov) = browse_dirs_model(m.dirs, 0, pointer, index, tail);
    let (file_rows, i2) = browse_files_model(m.files, 0, pointer, i1, tail);
    (dir_rows + file_rows, i2, hov)
}

/// Lays out the rows of the cached files from place `k` on.
fn browse_files_exec(
    files: &Vec<FileMetaData>,
    k: usize,
    cursor: &mut Cursor,
    tail: u8,
    out: &mut Vec<String>,
)
    ensures
        ({
            let (rows, idx) = browse_files_model(
                files@.map_values(|f: FileMetaData| file_model(f)),
                k as nat,
                old(cursor).pointer as nat,
                old(cursor).index as nat,
                tail as nat,
            );
            &&& strings_view(final(out)@) == strings_view(old(out)@) + rows
            &&& final(cursor).index as nat == idx
            &&& final(cursor).pointer == old(cursor).pointer
            &&& final(cursor).command == old(cursor).command
        }),
    decreases files@.len() - k,
{
    let ghost fm = files@.map_values(|f: FileMetaData| file_model(f));
    if k >= files.len() {
        assert(strings_view(out@) =~= strings_view(out@) + browse_files_model(
            fm,
            k as nat,
            cursor.pointer as nat,
            cursor.index as nat,
            tail as nat,
        ).0);
        return ;
    }
    let hov = cursor.is_hovered();
    let row = file_line(files[k].name.as_str(), files[k].size, hov, tail);
    let ghost before = out@;
    out.push(row);
    assert(strings_view(out@) =~= strings_view(before) + seq![out@.last()@]);
    if cursor.index < 255 {
        cursor.increase_index();
    }
    browse_files_exec(files, k + 1, cursor, tail, out);
    assert(strings_view(out@) =~= strings_view(old(out)@) + browse_files_model(
        fm,
        k as nat,
        old(cursor).pointer as nat,
        old(cursor).index as nat,
        tail as nat,
    ).0);
}

/// Lays out the rows of the cached directories from place `k` on, recording
/// the hovered directory's identifier when it is not known yet.
fn browse_dirs_exec(
    dirs: &Vec<DirMetaData>,
    k: usize,
    cursor: &mut Cursor,
    tail: u8,
    out: &mut Vec<String>,
    hovered: &mut Option<String>,
)
    ensures
        ({
            let (rows, idx, hov) = browse_dirs_model(
                dirs_model(dirs@),
                k as nat,
                old(cursor).pointer as nat,
                old(cursor).index as nat,
                tail as nat,
            );
            &&& strings_view(final(out)@) == strings_view(old(out)@) + rows
            &&& final(cursor).index as nat == idx
            &&& final(cursor).pointer == old(cursor).pointer
            &&& final(cursor).command == old(cursor).command
            &&& (*old(hovered) is Some ==> *final(hovered) == *old(hovered))
            &&& (*old(hovered) is None ==> match *final(hovered) {
                Some(s) => hov is Some && s@ == hov->0,
                None => hov is None,
            })
        }),
    decreases *dirs, dirs@.len() - k,
{
    proof {
        lemma_dirs_model_index(dirs@);
    }
    let ghost dm = dirs_model(dirs@);
    if k >= dirs.len() {
        assert(strings_view(out@) =~= strings_view(out@) + browse_dirs_model(
            dm,
            k as nat,
            cursor.pointer as nat,
            cursor.index as nat,
            tail as nat,
        ).0);
        return ;
    }
    assert(dm[k as int] == dir_model(dirs@[k as int]));
    let hov = cursor.is_hovered();
    let row = dir_line(dirs[k].name.as_str(), hov, tail);
    let ghost before = out@;
    out.push(row);
    assert(strings_view(out@) =~= strings_view(before) + seq![out@.last()@]);
    if hov && hovered.is_none() {
        *hovered = Some(dirs[k].id.clone());
    }
    if cursor.index < 255 {
        cursor.increase_index();
    }
    let expand = !dirs[k].cache.is_empty() && dirs[k].cache.is_open();
    if expand {
        let deeper = if tail <= 253 {
            tail + 2
        } else {
            255
        };
        proof {
            assert(decreases_to!(*dirs => dirs@));
            assert(decreases_to!(dirs@ => dirs@[k as int]));
            assert(decreases_to!(dirs@[k as int] => dirs@[k as int].cache));
        }
        browse_rows(&dirs[k].cache, cursor, deeper, out, hovered);
    }
    browse_dirs_exec(dirs, k + 1, cursor, tail, out, hovered);
    proof {
        assert(strings_view(out@) =~= strings_view(old(out)@) + browse_dirs_model(
            dm,
            k as nat,
            old(cursor).pointer as nat,
            old(cursor).index as nat,
            tail as nat,
        ).0);
    }
}

/// Lays out a whole cached listing: one row per cached directory — with its
/// own listing beneath it when unfolded — then one per cached file.  The
/// cursor's row counter advances once per row, and the hovered directory's
/// identifier is recorded when none is known yet.
pub fn browse_rows(
    cache: &MemoryCache,
    cursor: &mut Cursor,
    tail_spaces: u8,
    out: &mut Vec<String>,
    hovered: &mut Option<String>,
)
    ensures
        ({
            let (rows, idx, hov) = browse_cache_model(
                cache@,
                old(cursor).pointer as nat,
                old(cursor).index as nat,
                tail_spaces as nat,
            );
            &&& strings_view(final(out)@) == strings_view(old(out)@) + rows
            &&& final(cursor).index as nat == idx
            &&& final(cursor).pointer == old(cursor).pointer
            &&& final(cursor).command == old(cursor).command
            &&& (*old(hovered) is Some ==> *final(hovered) == *old(hovered))
            &&& (*old(hovered) is None ==> match *final(hovered) {
                Some(s) => hov is Some && s@ == hov->0,
                None => hov is None,
            })
        }),
    decreases *cache, 0int,
{
    proof {
        assert(decreases_to!(*cache => cache.dirs));
    }
    browse_dirs_exec(&cache.dirs, 0, cursor, tail_spaces, out, hovered);
    browse_files_exec(&cache.files, 0, cursor, tail_spaces, out);
    proof {
        assert(strings_view(out@) =~= strings_view(old(out)@) + browse_cache_model(
            cache@,
            old(cursor).pointer as nat,
            old(cursor).index as nat,
            tail_spaces as nat,
        ).0);
    }
}

} // verus!
