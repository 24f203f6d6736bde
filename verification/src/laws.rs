//! The store's laws: how creating, deleting and updating notes interact
//! with showing and listing them. Each law is stated over the same spec
//! functions the operations' contracts use, so it carries over to the
//! executable operations directly.

use vstd::prelude::*;
use crate::note::{
    FileV, Lookup, MetaV, body_of, dash_line, distinct_names, empty_meta, find_dash, find_name,
    lemma_find_dash, lemma_find_name, listing, note_lines, parsed_meta, resolve, sanitize_spec,
    scan_meta, step_meta, title_prefix, created_prefix, updated_prefix,
};
use crate::text::{parse_id, has_prefix, lemma_join_split, split_lines};

verus! {

/// A fresh note record parses back to exactly the header fields it was
/// written with.
pub proof fn lemma_note_lines_parse(
    title: Seq<char>,
    created: Seq<char>,
    updated: Seq<char>,
    content: Seq<char>,
)
    ensures
        parsed_meta(note_lines(title, created, updated, content)) == Some(
            (MetaV {
                title,
                created,
                last_updated: updated,
                has_title: true,
                has_created: true,
            }),
        ),
{
    reveal_strlit("title: ");
    reveal_strlit("created: ");
    reveal_strlit("last_updated: ");
    reveal_strlit("---");
    let l0 = title_prefix() + title;
    let l1 = created_prefix() + created;
    let l2 = updated_prefix() + updated;
    let s0 = note_lines(title, created, updated, content);
    let s1 = seq![l1, l2, dash_line()] + split_lines(content);
    let s2 = seq![l2, dash_line()] + split_lines(content);
    let s3 = seq![dash_line()] + split_lines(content);
    assert(s0[0] == l0);
    assert(s0.drop_first() =~= s1);
    assert(s1[0] == l1);
    assert(s1.drop_first() =~= s2);
    assert(s2[0] == l2);
    assert(s2.drop_first() =~= s3);
    assert(s3[0] == dash_line());

    assert(l0.subrange(0, title_prefix().len() as int) =~= title_prefix());
    assert(l0.skip(title_prefix().len() as int) =~= title);
    assert(l0 != dash_line());
    let a1 = step_meta(empty_meta(), l0);
    assert(scan_meta(s0, empty_meta()) == scan_meta(s1, a1));

    assert(l1[0] == 'c');
    assert(!has_prefix(l1, title_prefix())) by {
        if has_prefix(l1, title_prefix()) {
            assert(l1.subrange(0, title_prefix().len() as int)[0] == title_prefix()[0]);
        }
    }
    assert(l1.subrange(0, created_prefix().len() as int) =~= created_prefix());
    assert(l1.skip(created_prefix().len() as int) =~= created);
    assert(l1 != dash_line());
    let a2 = step_meta(a1, l1);
    assert(scan_meta(s1, a1) == scan_meta(s2, a2));

    assert(l2[0] == 'l');
    assert(!has_prefix(l2, title_prefix())) by {
        if has_prefix(l2, title_prefix()) {
            assert(l2.subrange(0, title_prefix().len() as int)[0] == title_prefix()[0]);
        }
    }
    assert(!has_prefix(l2, created_prefix())) by {
        if has_prefix(l2, created_prefix()) {
            assert(l2.subrange(0, created_prefix().len() as int)[0] == created_prefix()[0]);
        }
    }
    assert(l2.subrange(0, updated_prefix().len() as int) =~= updated_prefix());
    assert(l2.skip(updated_prefix().len() as int) =~= updated);
    assert(l2 != dash_line());
    let a3 = step_meta(a2, l2);
    assert(scan_meta(s2, a2) == scan_meta(s3, a3));

    assert(scan_meta(s3, a3) == a3);
    assert(a3 == MetaV {
        title,
        created,
        last_updated: updated,
        has_title: true,
        has_created: true,
    });
}

/// Creating a note and then showing it by its title yields exactly the
/// content it was created with, with one newline appended. The title must
/// not read as a numeric id — such a title is resolved as a listing
/// position, not by name — and its storage key must be free, which is what
/// a successful create requires.
pub proof fn lemma_create_then_show_round_trip(
    files: Seq<FileV>,
    title: Seq<char>,
    content: Seq<char>,
    ts: Seq<char>,
)
    requires
        parse_id(title) is None,
        find_name(files, sanitize_spec(title)) is None,
    ensures
        ({
            let created = files.push(
                (FileV {
                    name: sanitize_spec(title),
                    lines: note_lines(title, ts, ts, content),
                }),
            );
            &&& resolve(created, title) == Lookup::Found(files.len() as int)
            &&& body_of(created[files.len() as int].lines) == content + seq!['\n']
        }),
{
    reveal_strlit("title: ");
    reveal_strlit("created: ");
    reveal_strlit("last_updated: ");
    reveal_strlit("---");
    let nm = sanitize_spec(title);
    let f = FileV { name: nm, lines: note_lines(title, ts, ts, content) };
    let created = files.push(f);
    lemma_find_name(files, nm);
    lemma_find_name(created, nm);
    match find_name(created, nm) {
        Option::None => {
            assert(created[files.len() as int].name == nm);
            assert(false);
        },
        Option::Some(k) => {
            if k < files.len() {
                assert(created[k] == files[k]);
                assert(false);
            }
            assert(k == files.len());
        },
    }
    assert(resolve(created, title) == Lookup::Found(files.len() as int));

    let lines = f.lines;
    assert(lines[0] == title_prefix() + title);
    assert(lines[1] == created_prefix() + ts);
    assert(lines[2] == updated_prefix() + ts);
    assert(lines[3] == dash_line());
    assert((title_prefix() + title)[0] == 't');
    assert((created_prefix() + ts)[0] == 'c');
    assert((updated_prefix() + ts)[0] == 'l');
    assert(dash_line()[0] == '-');
    lemma_find_dash(lines);
    match find_dash(lines) {
        Option::None => {
            assert(false);
        },
        Option::Some(d) => {
            assert(d <= 3);
            assert(d == 3);
        },
    }
    assert(lines.skip(4) =~= split_lines(content));
    lemma_join_split(content);
    assert(body_of(lines) == content + seq!['\n']);
}

/// Deleting a note by its title and then showing the same title fails with
/// note-not-found, provided the store keeps one file per storage key, as a
/// real directory does. A numeric title is excluded: it would be resolved
/// as a listing position.
pub proof fn lemma_delete_then_show_not_found(files: Seq<FileV>, title: Seq<char>, i: int)
    requires
        parse_id(title) is None,
        distinct_names(files),
        resolve(files, title) == Lookup::Found(i),
    ensures
        0 <= i < files.len(),
        resolve(files.remove(i), title) == Lookup::Missing,
{
    let nm = sanitize_spec(title);
    lemma_find_name(files, nm);
    assert(find_name(files, nm) == Some(i));
    assert(files[i].name == nm);
    let removed = files.remove(i);
    assert forall|k: int| 0 <= k < removed.len() implies (#[trigger] removed[k]).name != nm by {
        if k < i {
            assert(removed[k] == files[k]);
        } else {
            assert(removed[k] == files[k + 1]);
            assert(files[i].name == files[k + 1].name ==> false);
        }
    }
    lemma_find_name(removed, nm);
    match find_name(removed, nm) {
        Option::None => {},
        Option::Some(k) => {
            assert(false);
        },
    }
}

/// Two distinct titles that sanitize to the same storage key collide:
/// after a note is created under the first title, creating one under the
/// second fails with note-already-exists, because its key is taken.
pub proof fn lemma_sanitize_collision(
    files: Seq<FileV>,
    t1: Seq<char>,
    t2: Seq<char>,
    content: Seq<char>,
    ts: Seq<char>,
)
    requires
        sanitize_spec(t1) == sanitize_spec(t2),
        find_name(files, sanitize_spec(t1)) is None,
    ensures
        ({
            let created = files.push(
                (FileV { name: sanitize_spec(t1), lines: note_lines(t1, ts, ts, content) }),
            );
            find_name(created, sanitize_spec(t2)) is Some
        }),
{
    let nm = sanitize_spec(t1);
    let created = files.push((FileV { name: nm, lines: note_lines(t1, ts, ts, content) }));
    lemma_find_name(created, nm);
    match find_name(created, nm) {
        Option::None => {
            assert(created[files.len() as int].name == nm);
            assert(false);
        },
        Option::Some(k) => {},
    }
}

/// A store whose storage keys are distinct keeps them distinct through a
/// create: the new file's key was free.
pub proof fn lemma_create_keeps_distinct(files: Seq<FileV>, f: FileV)
    requires
        distinct_names(files),
        find_name(files, f.name) is None,
    ensures
        distinct_names(files.push(f)),
{
    lemma_find_name(files, f.name);
    let pushed = files.push(f);
    assert forall|i: int, j: int|
        0 <= i < j < pushed.len() implies (#[trigger] pushed[i]).name != (
    #[trigger] pushed[j]).name by {
        if j < files.len() {
            assert(pushed[i] == files[i] && pushed[j] == files[j]);
        } else {
            assert(pushed[i] == files[i] && pushed[j] == f);
        }
    }
}

/// Removing a file keeps the storage keys distinct.
pub proof fn lemma_delete_keeps_distinct(files: Seq<FileV>, i: int)
    requires
        distinct_names(files),
        0 <= i < files.len(),
    ensures
        distinct_names(files.remove(i)),
{
    let removed = files.remove(i);
    assert forall|p: int, q: int|
        0 <= p < q < removed.len() implies (#[trigger] removed[p]).name != (
    #[trigger] removed[q]).name by {
        let p0 = if p < i {
            p
        } else {
            p + 1
        };
        let q0 = if q < i {
            q
        } else {
            q + 1
        };
        assert(removed[p] == files[p0] && removed[q] == files[q0]);
    }
}

/// Rewriting a file in place, under its own storage key, keeps the keys
/// distinct.
pub proof fn lemma_update_keeps_distinct(files: Seq<FileV>, i: int, f: FileV)
    requires
        distinct_names(files),
        0 <= i < files.len(),
        f.name == files[i].name,
    ensures
        distinct_names(files.update(i, f)),
{
    let updated = files.update(i, f);
    assert forall|p: int, q: int|
        0 <= p < q < updated.len() implies (#[trigger] updated[p]).name != (
    #[trigger] updated[q]).name by {
        assert(updated[p].name == files[p].name && updated[q].name == files[q].name);
    }
}

/// Updating a note rewrites its record with the stored title and creation
/// time and the fresh update time: `created` is exactly what was recorded,
/// only `last_updated` moves.
pub proof fn lemma_update_preserves_created(
    files: Seq<FileV>,
    i: int,
    new_content: Seq<char>,
    ts: Seq<char>,
)
    requires
        0 <= i < files.len(),
        parsed_meta(files[i].lines) is Some,
    ensures
        ({
            let m = parsed_meta(files[i].lines).unwrap();
            let updated = files.update(
                i,
                (FileV {
                    name: files[i].name,
                    lines: note_lines(m.title, m.created, ts, new_content),
                }),
            );
            &&& parsed_meta(updated[i].lines) is Some
            &&& parsed_meta(updated[i].lines).unwrap().created == m.created
            &&& parsed_meta(updated[i].lines).unwrap().title == m.title
            &&& parsed_meta(updated[i].lines).unwrap().last_updated == ts
        }),
{
    let m = parsed_meta(files[i].lines).unwrap();
    lemma_note_lines_parse(m.title, m.created, ts, new_content);
}

/// A numeric identifier is valid exactly when it lies between one and the
/// length of the current listing; zero and anything past the end are
/// invalid.
pub proof fn lemma_id_bounds(files: Seq<FileV>, ident: Seq<char>, v: int)
    requires
        parse_id(ident) == Some(v),
    ensures
        1 <= v <= listing(files).len() ==> resolve(files, ident) is Found,
        !(1 <= v <= listing(files).len()) ==> resolve(files, ident) == Lookup::BadId,
{
}

} // verus!
