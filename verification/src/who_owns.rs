//! Reporting who owns the files of a repository.
use vstd::prelude::*;

use crate::text::{chars_of, has_prefix, push_decimal, push_joined};

verus! {

use crate::text::{decimal, join_words, strings_view};

/// `dir` with a slash at its end.
pub open spec fn with_slash(dir: Seq<char>) -> Seq<char> {
    if dir.len() > 0 && dir.last() == '/' {
        dir
    } else {
        dir.push('/')
    }
}

/// The prefix that the paths in the scope of a query have, if it has a scope: a query for
/// a directory other than the root is limited to that directory. `dir` is the directory
/// relative to the root.
pub fn scope_prefix(is_file: bool, is_root: bool, dir: &str) -> (r: Option<String>)
    ensures
        r is Some <==> !is_file && !is_root,
        r matches Some(prefix) ==> prefix@ == with_slash(dir@),
{
    if is_file || is_root {
        return None;
    }
    let cs: Vec<char> = chars_of(dir);
    let mut prefix: String = String::new();
    prefix.append(dir);
    assert(prefix@ == dir@);
    if !(cs.len() > 0 && cs[cs.len() - 1] == '/') {
        prefix.push('/');
    }
    Some(prefix)
}

/// The files whose paths start with `prefix`.
pub open spec fn under(files: Seq<Seq<char>>, prefix: Seq<char>) -> Seq<Seq<char>>
    decreases files.len(),
{
    if files.len() == 0 {
        seq![]
    } else {
        let before = under(files.drop_last(), prefix);
        if prefix.is_prefix_of(files.last()) {
            before.push(files.last())
        } else {
            before
        }
    }
}

/// The files in the scope of a query.
pub open spec fn in_scope(files: Seq<Seq<char>>, scope: Option<Seq<char>>) -> Seq<Seq<char>> {
    match scope {
        Some(prefix) => under(files, prefix),
        None => files,
    }
}

/// The files in the scope of a query, in order.
pub fn files_in_scope(files: Vec<String>, scope: &Option<String>) -> (r: Vec<String>)
    ensures
        strings_view(r@) == in_scope(
            strings_view(files@),
            match scope {
                Some(prefix) => Some(prefix@),
                None => None,
            },
        ),
{
    match scope {
        None => files,
        Some(prefix) => {
            let start: Vec<char> = chars_of(prefix.as_str());
            let ghost all = strings_view(files@);
            let mut r: Vec<String> = Vec::new();
            assert(strings_view(r@) == under(all.take(0), prefix@));
            for file in it: files
                invariant
                    all == strings_view(it.seq()),
                    start@ == prefix@,
                    strings_view(r@) == under(all.take(it.index() as int), prefix@),
            {
                let ghost i = it.index() as int;
                let ghost before = strings_view(r@);
                let ghost text = file@;
                assert(all.take(i + 1).drop_last() == all.take(i));
                assert(all.take(i + 1).last() == text);
                let cs: Vec<char> = chars_of(file.as_str());
                if has_prefix(cs.as_slice(), start.as_slice()) {
                    r.push(file);
                    assert(strings_view(r@) == before.push(text));
                }
            }
            assert(all.take(all.len() as int) == all);
            r
        },
    }
}

/// The files that a query is about.
pub open spec fn query_files(
    is_file: bool,
    is_root: bool,
    rel: Seq<char>,
    tracked_files: Seq<Seq<char>>,
) -> Seq<Seq<char>> {
    if is_file {
        seq![rel]
    } else {
        in_scope(
            tracked_files,
            if is_root {
                None
            } else {
                Some(with_slash(rel))
            },
        )
    }
}

/// The files that a query is about: the file that it names, tracked or not, all tracked
/// files for the root, and otherwise those in the directory that it names. `rel` is the
/// path of the query relative to the root.
pub fn files_of_query(is_file: bool, is_root: bool, rel: &str, tracked_files: Vec<String>) -> (r: Vec<String>)
    ensures
        strings_view(r@) == (if is_file {
            seq![rel@]
        } else if is_root {
            strings_view(tracked_files@)
        } else {
            under(strings_view(tracked_files@), with_slash(rel@))
        }),
        strings_view(r@) == query_files(is_file, is_root, rel@, strings_view(tracked_files@)),
{
    if is_file {
        let mut r: Vec<String> = Vec::new();
        r.push(rel.to_owned());
        assert(strings_view(r@) == seq![rel@]);
        return r;
    }
    let scope: Option<String> = scope_prefix(is_file, is_root, rel);
    files_in_scope(tracked_files, &scope)
}

/// The owners of the files as sequences.
pub open spec fn owners_view(owners: Seq<Vec<String>>) -> Seq<Seq<Seq<char>>> {
    Seq::new(owners.len(), |i: int| strings_view(owners[i]@))
}

/// The line on a file. Unowned files are left out unless `unowned` is set.
pub open spec fn file_line(file: Seq<char>, owners: Seq<Seq<char>>, unowned: bool) -> Seq<char> {
    if owners.len() > 0 {
        file + " "@ + join_words(owners) + "\n"@
    } else if unowned {
        file + " (unowned)\n"@
    } else {
        seq![]
    }
}

/// The lines on all files.
pub open spec fn report_text(files: Seq<Seq<char>>, owners: Seq<Seq<Seq<char>>>, unowned: bool) -> Seq<char>
    decreases files.len(),
{
    if files.len() == 0 {
        seq![]
    } else {
        let n = files.len() - 1;
        report_text(files.take(n), owners.take(n), unowned) + file_line(files[n], owners[n], unowned)
    }
}

/// How many files have owners.
pub open spec fn owned_files(owners: Seq<Seq<Seq<char>>>) -> nat
    decreases owners.len(),
{
    if owners.len() == 0 {
        0
    } else {
        owned_files(owners.drop_last()) + if owners.last().len() > 0 {
            1nat
        } else {
            0nat
        }
    }
}

/// A report on the owners of files.
pub struct Report {
    /// One line for each file that is reported.
    pub text: String,
    pub owned: usize,
    pub unowned: usize,
}

/// Report on the files, of which the owners are given in the same order.
pub fn who_owns_report(files: &Vec<String>, owners: &Vec<Vec<String>>, unowned: bool) -> (r: Report)
    requires
        files@.len() == owners@.len(),
    ensures
        r.text@ == report_text(strings_view(files@), owners_view(owners@), unowned),
        r.owned == owned_files(owners_view(owners@)),
        r.owned + r.unowned == files@.len(),
{
    let ghost fs = strings_view(files@);
    let ghost os = owners_view(owners@);
    let mut text: String = String::new();
    let mut owned_count: usize = 0;
    let mut unowned_count: usize = 0;
    for i in 0..files.len()
        invariant
            files@.len() == owners@.len(),
            fs == strings_view(files@),
            os == owners_view(owners@),
            text@ == report_text(fs.take(i as int), os.take(i as int), unowned),
            owned_count == owned_files(os.take(i as int)),
            owned_count + unowned_count == i,
    {
        let ghost before = text@;
        proof {
            assert(fs.take(i + 1).take(i as int) == fs.take(i as int));
            assert(os.take(i + 1).take(i as int) == os.take(i as int));
            assert(os.take(i + 1).drop_last() == os.take(i as int));
            assert(os.take(i + 1).last() == strings_view(owners@[i as int]@));
        }
        if owners[i].len() == 0 {
            unowned_count = unowned_count + 1;
            if unowned {
                text.append(files[i].as_str());
                text.append(" (unowned)\n");
            }
        } else {
            owned_count = owned_count + 1;
            text.append(files[i].as_str());
            text.append(" ");
            push_joined(&mut text, &owners[i]);
            text.append("\n");
        }
        assert(text@ == before + file_line(fs[i as int], os[i as int], unowned));
    }
    proof {
        assert(fs.take(fs.len() as int) == fs);
        assert(os.take(os.len() as int) == os);
    }
    Report { text, owned: owned_count, unowned: unowned_count }
}

/// The last line that is said of the files, after an empty one.
pub open spec fn summary_text(owned: nat, unowned: nat, total: nat) -> Seq<char> {
    "\n"@ + decimal(owned) + " owned, "@ + decimal(unowned) + " unowned, "@ + decimal(total) + " total files"@
}

/// The last line that is said of the files, after an empty one.
pub fn who_owns_summary(owned: usize, unowned: usize, total: usize) -> (out: String)
    ensures
        out@ == summary_text(owned as nat, unowned as nat, total as nat),
{
    let mut out: String = String::new();
    out.append("\n");
    push_decimal(&mut out, owned);
    out.append(" owned, ");
    push_decimal(&mut out, unowned);
    out.append(" unowned, ");
    push_decimal(&mut out, total);
    out.append(" total files");
    assert(out@ == summary_text(owned as nat, unowned as nat, total as nat));
    out
}

} // verus!
