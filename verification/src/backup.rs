//! Names of database backups, and which files of a backup folder are backups.
use vstd::prelude::*;
use crate::ordering::{is_descending, sort_descending};
use crate::text::{chars_of, matches_at, texts_view};

verus! {

/// The file name of a backup made at `timestamp`.
pub open spec fn backup_name(timestamp: Seq<char>) -> Seq<char> {
    "trade_journal_backup_"@ + timestamp + ".db"@
}

/// The file name of a backup made at `timestamp`:
/// `trade_journal_backup_{timestamp}.db`.
pub fn backup_file_name(timestamp: &str) -> (res: String)
    ensures
        res@ == backup_name(timestamp@),
{
    let mut name = "trade_journal_backup_".to_string();
    name.append(timestamp);
    name.append(".db");
    name
}

/// The extension given to the copy of the database kept before a restore.
pub open spec fn pre_restore_ext(timestamp: Seq<char>) -> Seq<char> {
    "db.pre_restore_"@ + timestamp
}

/// The extension given to the copy of the database kept before a restore
/// made at `timestamp`: `db.pre_restore_{timestamp}`.
pub fn pre_restore_extension(timestamp: &str) -> (res: String)
    ensures
        res@ == pre_restore_ext(timestamp@),
{
    let mut ext = "db.pre_restore_".to_string();
    ext.append(timestamp);
    ext
}

/// The position of the last `.` of `s`, or -1.
pub open spec fn last_dot(s: Seq<char>) -> int
    decreases s.len(),
{
    if s.len() == 0 {
        -1
    } else if s.last() == '.' {
        s.len() - 1
    } else {
        last_dot(s.drop_last())
    }
}

/// The extension of a file name as `Path::extension` reads it: the text
/// after the last `.`, unless there is no `.`, the only one begins the name,
/// or the name is `..`.
pub open spec fn extension(name: Seq<char>) -> Option<Seq<char>> {
    let d = last_dot(name);
    if name == ".."@ || d <= 0 {
        None
    } else {
        Some(name.skip(d + 1))
    }
}

/// An entry of a backup folder: its full path and its file name.
pub struct BackupEntry {
    pub path: String,
    pub file_name: String,
}

impl BackupEntry {
    /// The entry with the given path and file name.
    pub fn new(path: String, file_name: String) -> (res: Self)
        ensures
            res.path@ == path@,
            res.file_name@ == file_name@,
    {
        BackupEntry { path, file_name }
    }
}

/// A file name whose extension is `db`.
pub open spec fn is_db_name(name: Seq<char>) -> bool {
    extension(name) == Some("db"@)
}

/// The paths of the entries of `es` whose file names have the extension
/// `db`, in order.
pub open spec fn db_paths(es: Seq<BackupEntry>) -> Seq<Seq<char>>
    decreases es.len(),
{
    if es.len() == 0 {
        seq![]
    } else if is_db_name(es.last().file_name@) {
        db_paths(es.drop_last()).push(es.last().path@)
    } else {
        db_paths(es.drop_last())
    }
}

proof fn lemma_last_dot(s: Seq<char>)
    ensures
        -1 <= last_dot(s) < s.len(),
        last_dot(s) >= 0 ==> s[last_dot(s)] == '.',
        forall|i: int| last_dot(s) < i < s.len() ==> #[trigger] s[i] != '.',
    decreases s.len(),
{
    if s.len() > 0 && s.last() != '.' {
        lemma_last_dot(s.drop_last());
        assert forall|i: int| last_dot(s) < i < s.len() implies #[trigger] s[i] != '.' by {
            if i < s.len() - 1 {
                assert(s[i] == s.drop_last()[i]);
            }
        }
    }
}

/// A name of at least four characters ending in `.db` has the extension `db`.
proof fn lemma_db_suffix(name: Seq<char>)
    requires
        name.len() >= 4,
        name[name.len() - 3] == '.',
        name[name.len() - 2] == 'd',
        name[name.len() - 1] == 'b',
    ensures
        extension(name) == Some("db"@),
{
    reveal_strlit("db");
    reveal_strlit("..");
    let n1 = name.drop_last();
    let n2 = n1.drop_last();
    assert(n1.last() == 'd');
    assert(n2.last() == '.');
    assert(last_dot(n2) == n2.len() - 1);
    assert(last_dot(n1) == last_dot(n2));
    assert(last_dot(name) == last_dot(n1));
    assert(name.skip(name.len() - 2) =~= "db"@);
    assert(name != ".."@) by {
        assert(name.len() != 2);
    }
}

/// Whether a file name has the extension `db`, as `Path::extension` reads it.
pub fn has_db_extension(name: &str) -> (res: bool)
    ensures
        res == is_db_name(name@),
{
    proof {
        reveal_strlit("..");
        reveal_strlit("db");
        reveal_strlit(".db");
    }
    let p = chars_of(name);
    let n = p.len();
    let suffix = chars_of(".db");
    let ghost s = p@;
    if n < 4 || !matches_at(&p, &suffix, n - 3) {
        proof {
            lemma_last_dot(s);
            if extension(s) == Some("db"@) {
                let d = last_dot(s);
                assert(s.skip(d + 1) =~= "db"@);
                assert("db"@.len() == 2);
                assert(s.skip(d + 1).len() == s.len() - (d + 1));
                assert(d == s.len() - 3);
                assert(s.len() >= 4) by {
                    if s.len() == 3 {
                        assert(d == 0);
                    }
                }
                assert(s.subrange(n - 3, n as int) =~= suffix@) by {
                    assert(s.skip(d + 1)[0] == s[d + 1]);
                    assert(s.skip(d + 1)[1] == s[d + 2]);
                    assert("db"@[0] == 'd');
                    assert("db"@[1] == 'b');
                    assert(".db"@[0] == '.');
                    assert(".db"@[1] == 'd');
                    assert(".db"@[2] == 'b');
                }
            }
        }
        return false;
    }
    proof {
        assert(s.subrange(n - 3, n as int) == suffix@);
        assert(s[n - 3] == '.') by {
            assert(s.subrange(n - 3, n as int)[0] == s[n - 3]);
        }
        assert(s[n - 2] == 'd') by {
            assert(s.subrange(n - 3, n as int)[1] == s[n - 2]);
        }
        assert(s[n - 1] == 'b') by {
            assert(s.subrange(n - 3, n as int)[2] == s[n - 1]);
        }
        lemma_db_suffix(s);
    }
    true
}

/// The backups among the entries of a backup folder, newest first: the
/// paths of the entries whose file names have the extension `db`, in
/// descending text order (backup names carry their timestamp, so this puts
/// the latest first).
pub fn select_backups(entries: &Vec<BackupEntry>) -> (res: Vec<String>)
    ensures
        is_descending(texts_view(res@)),
        texts_view(res@).to_multiset() == db_paths(entries@).to_multiset(),
{
    let mut found: Vec<String> = Vec::new();
    let mut i: usize = 0;
    while i < entries.len()
        invariant
            i <= entries@.len(),
            texts_view(found@) == db_paths(entries@.take(i as int)),
        decreases entries@.len() - i,
    {
        assert(entries@.take(i + 1).drop_last() =~= entries@.take(i as int));
        assert(entries@.take(i + 1).last() == entries@[i as int]);
        if has_db_extension(entries[i].file_name.as_str()) {
            let ghost before = found@;
            found.push(entries[i].path.clone());
            assert(texts_view(found@) =~= texts_view(before).push(entries@[i as int].path@));
        }
        i = i + 1;
    }
    assert(entries@.take(entries@.len() as int) =~= entries@);
    sort_descending(&found)
}

proof fn lemma_db_paths_keep(es: Seq<BackupEntry>, i: int)
    requires
        0 <= i < es.len(),
        is_db_name(es[i].file_name@),
    ensures
        db_paths(es).contains(es[i].path@),
    decreases es.len(),
{
    if i == es.len() - 1 {
        assert(db_paths(es).last() == es[i].path@);
    } else {
        lemma_db_paths_keep(es.drop_last(), i);
        let j = choose|j: int| 0 <= j < db_paths(es.drop_last()).len() && db_paths(es.drop_last())[j] == es[i].path@;
        if is_db_name(es.last().file_name@) {
            assert(db_paths(es)[j] == es[i].path@);
        }
    }
}

/// A backup is listed as one: the name given to a backup made at any
/// timestamp has the extension `db`, so a folder entry of that name has its
/// path among the backups of the folder.
pub proof fn lemma_backup_is_listed(entries: Seq<BackupEntry>, i: int, timestamp: Seq<char>)
    requires
        0 <= i < entries.len(),
        entries[i].file_name@ == backup_name(timestamp),
    ensures
        is_db_name(backup_name(timestamp)),
        db_paths(entries).contains(entries[i].path@),
{
    reveal_strlit("trade_journal_backup_");
    reveal_strlit(".db");
    let name = backup_name(timestamp);
    let prefix = "trade_journal_backup_"@;
    let n = name.len();
    assert(n == prefix.len() + timestamp.len() + 3);
    assert(name[n - 3] == ".db"@[0]);
    assert(name[n - 2] == ".db"@[1]);
    assert(name[n - 1] == ".db"@[2]);
    lemma_db_suffix(name);
    lemma_db_paths_keep(entries, i);
}

} // verus!
