//! The package summary: installed package managers with their package
//! counts, or the directories on `PATH` with the number of programs in each.

use vstd::prelude::*;
use crate::text::{
    chars_eq, chars_of, contains, contains_chars, decimal, decimal_chars, push_chars, push_str,
    replace, replace_chars, split, split_chars, string_of, sub_chars, trim, trim_chars,
};

verus! {

/// What was found of each package manager: `None` where it is not
/// installed; the number of installed programs (Cargo, Flatpak) or the
/// package count that the manager printed (Pacman, APT) where it is.
pub struct ManagerReport {
    pub cargo: Option<usize>,
    pub pacman: Option<String>,
    pub apt: Option<String>,
    pub flatpak: Option<usize>,
}

/// The part of the summary for a manager that printed its package count.
pub open spec fn printed_part(label: Seq<char>, output: Option<String>) -> Seq<char> {
    match output {
        Some(o) => if trim(o@).len() > 0 {
            label + trim(o@) + ")"@
        } else {
            seq![]
        },
        None => seq![],
    }
}

/// The package-manager summary: `Cargo (n)`, then `, Pacman (n)`,
/// `, APT (n)` (each only when the printed count is not blank) and
/// `, Flatpak (n)`, for the managers that are installed.
pub open spec fn manager_summary(r: ManagerReport) -> Seq<char> {
    let cargo = match r.cargo {
        Some(n) => "Cargo ("@ + decimal(n as nat) + ")"@,
        None => seq![],
    };
    let flatpak = match r.flatpak {
        Some(n) => ", Flatpak ("@ + decimal(n as nat) + ")"@,
        None => seq![],
    };
    cargo + printed_part(", Pacman ("@, r.pacman) + printed_part(", APT ("@, r.apt) + flatpak
}

/// One directory named on `PATH`: its name, and the number of entries in
/// it when it exists.
pub struct PathEntry {
    pub dir: String,
    pub count: Option<usize>,
}

/// A directory is listed when its name is not empty and it exists with
/// something in it.
pub open spec fn is_listed(e: PathEntry) -> bool {
    e.dir@.len() > 0 && (e.count matches Some(n) && n != 0)
}

/// Some directory is listed.
pub open spec fn some_listed(entries: Seq<PathEntry>) -> bool {
    exists|i: int| 0 <= i < entries.len() && is_listed(#[trigger] entries[i])
}

/// The home directory of `user`.
pub open spec fn home_of(user: Seq<char>) -> Seq<char> {
    "/home/"@ + user
}

/// A directory as shown: with the home directory written `~` where it
/// occurs in the name.
pub open spec fn shown_dir(dir: Seq<char>, home: Seq<char>) -> Seq<char> {
    if contains(dir, home) {
        replace(dir, home, "~"@)
    } else {
        dir
    }
}

/// The text for one directory: `name (count), `.
pub open spec fn entry_text(e: PathEntry, home: Seq<char>) -> Seq<char> {
    shown_dir(e.dir@, home) + " ("@ + decimal(e.count->0 as nat) + "), "@
}

/// The texts of the listed directories, one after the other.
pub open spec fn path_listing(entries: Seq<PathEntry>, home: Seq<char>) -> Seq<char>
    decreases entries.len(),
{
    if entries.len() == 0 {
        seq![]
    } else {
        path_listing(entries.drop_last(), home) + if is_listed(entries.last()) {
            entry_text(entries.last(), home)
        } else {
            seq![]
        }
    }
}

/// The listing of `PATH` directories without its final `", "`.
pub open spec fn path_summary(entries: Seq<PathEntry>, user: Seq<char>) -> Seq<char> {
    let l = path_listing(entries, home_of(user));
    l.take(l.len() - 2)
}

/// The summary for `which`: the package managers for `"package-managers"`,
/// the `PATH` directories for `"path"`, and nothing for anything else.
pub open spec fn packages_text(
    which: Seq<char>,
    managers: ManagerReport,
    entries: Seq<PathEntry>,
    user: Seq<char>,
) -> Seq<char> {
    if which == "package-managers"@ {
        manager_summary(managers)
    } else if which == "path"@ {
        path_summary(entries, user)
    } else {
        seq![]
    }
}

/// The home directory of `user`, `/home/<user>`.
pub fn home_dir(user: &str) -> (res: String)
    ensures
        res@ == home_of(user@),
{
    let mut v = chars_of("/home/");
    push_str(&mut v, user);
    string_of(&v)
}

/// The directory of programs installed with Cargo for `user`.
pub fn cargo_bin_dir(user: &str) -> (res: String)
    ensures
        res@ == home_of(user@) + "/.cargo/bin"@,
{
    let mut v = chars_of("/home/");
    push_str(&mut v, user);
    push_str(&mut v, "/.cargo/bin");
    string_of(&v)
}

/// The directories named on `PATH`, in order, empty names included.
pub fn split_path(path: &str) -> (res: Vec<String>)
    ensures
        res@.len() == split(path@, ':').len(),
        forall|i: int| 0 <= i < res@.len() ==> #[trigger] res@[i]@ == split(path@, ':')[i],
{
    let fields = split_chars(&chars_of(path), ':');
    let ghost views = fields@.map_values(|f: Vec<char>| f@);
    let mut out: Vec<String> = Vec::new();
    let mut i: usize = 0;
    while i < fields.len()
        invariant
            views == fields@.map_values(|f: Vec<char>| f@),
            views == split(path@, ':'),
            i <= fields@.len(),
            out@.len() == i,
            forall|k: int| 0 <= k < i ==> #[trigger] out@[k]@ == views[k],
        decreases fields@.len() - i,
    {
        out.push(string_of(&fields[i]));
        i = i + 1;
    }
    out
}

/// Appends the printed count of a manager, as [`printed_part`] says.
fn push_printed(v: &mut Vec<char>, label: &str, output: &Option<String>)
    ensures
        final(v)@ == old(v)@ + printed_part(label@, *output),
{
    match output {
        Some(o) => {
            let t = trim_chars(&chars_of(o.as_str()));
            if t.len() > 0 {
                push_str(v, label);
                push_chars(v, &t);
                push_str(v, ")");
            } else {
                assert(v@ =~= old(v)@ + seq![]);
            }
        },
        None => {
            assert(v@ =~= old(v)@ + seq![]);
        },
    }
}

/// The package-manager summary (see [`manager_summary`]).
pub fn package_managers(managers: &ManagerReport) -> (res: String)
    ensures
        res@ == manager_summary(*managers),
{
    let mut v: Vec<char> = Vec::new();
    match managers.cargo {
        Some(n) => {
            push_str(&mut v, "Cargo (");
            push_chars(&mut v, &decimal_chars(n as u64));
            push_str(&mut v, ")");
        },
        None => {},
    }
    push_printed(&mut v, ", Pacman (", &managers.pacman);
    push_printed(&mut v, ", APT (", &managers.apt);
    match managers.flatpak {
        Some(n) => {
            push_str(&mut v, ", Flatpak (");
            push_chars(&mut v, &decimal_chars(n as u64));
            push_str(&mut v, ")");
        },
        None => {},
    }
    assert(v@ =~= manager_summary(*managers));
    string_of(&v)
}

/// The text for one directory, as [`entry_text`] says.
fn push_entry(v: &mut Vec<char>, e: &PathEntry, home: &Vec<char>)
    requires
        home@.len() > 0,
        e.count is Some,
    ensures
        final(v)@ == old(v)@ + entry_text(*e, home@),
{
    let dir = chars_of(e.dir.as_str());
    if contains_chars(&dir, home) {
        push_chars(v, &replace_chars(&dir, home, &chars_of("~")));
    } else {
        push_chars(v, &dir);
    }
    push_str(v, " (");
    let n = match e.count {
        Some(n) => n,
        None => 0,
    };
    push_chars(v, &decimal_chars(n as u64));
    push_str(v, "), ");
}

/// A listed directory's text is at least five characters long.
proof fn lemma_listing_long(entries: Seq<PathEntry>, home: Seq<char>)
    requires
        some_listed(entries),
    ensures
        path_listing(entries, home).len() >= 2,
    decreases entries.len(),
{
    reveal_strlit("), ");
    let i = choose|i: int| 0 <= i < entries.len() && is_listed(#[trigger] entries[i]);
    if i == entries.len() - 1 {
        assert(entry_text(entries.last(), home).len() >= 3);
    } else {
        assert(entries.drop_last()[i] == entries[i]);
        lemma_listing_long(entries.drop_last(), home);
    }
}

/// The listing of two runs of directories is the two listings one after
/// the other.
pub proof fn lemma_listing_concat(e1: Seq<PathEntry>, e2: Seq<PathEntry>, home: Seq<char>)
    ensures
        path_listing(e1 + e2, home) == path_listing(e1, home) + path_listing(e2, home),
    decreases e2.len(),
{
    if e2.len() == 0 {
        assert(e1 + e2 =~= e1);
        assert(path_listing(e1, home) + seq![] =~= path_listing(e1, home));
    } else {
        lemma_listing_concat(e1, e2.drop_last(), home);
        assert((e1 + e2).drop_last() =~= e1 + e2.drop_last());
        assert((e1 + e2).last() == e2.last());
        let tail = if is_listed(e2.last()) { entry_text(e2.last(), home) } else { seq![] };
        assert(path_listing(e1, home) + path_listing(e2.drop_last(), home) + tail =~= path_listing(
            e1,
            home,
        ) + (path_listing(e2.drop_last(), home) + tail));
    }
}

/// A listing with a listed directory ends in `", "`.
proof fn lemma_listing_ends_with_separator(e: Seq<PathEntry>, home: Seq<char>)
    requires
        some_listed(e),
    ensures
        path_listing(e, home).len() >= 2,
        path_listing(e, home).subrange(
            path_listing(e, home).len() - 2,
            path_listing(e, home).len() as int,
        ) == ", "@,
    decreases e.len(),
{
    reveal_strlit("), ");
    reveal_strlit(", ");
    let l = path_listing(e, home);
    if is_listed(e.last()) {
        let t = entry_text(e.last(), home);
        let sep = "), "@;
        assert(t.subrange(t.len() - 3, t.len() as int) =~= sep);
        assert(l.subrange(l.len() - 2, l.len() as int) =~= t.subrange(t.len() - 2, t.len() as int));
        assert(t.subrange(t.len() - 2, t.len() as int) =~= ", "@);
    } else {
        let i = choose|i: int| 0 <= i < e.len() && is_listed(#[trigger] e[i]);
        assert(i != e.len() - 1);
        assert(e.drop_last()[i] == e[i]);
        lemma_listing_ends_with_separator(e.drop_last(), home);
        assert(l =~= path_listing(e.drop_last(), home));
    }
}

/// A `PATH` made of two parts, each with a listed directory, gives the two
/// summaries joined by `", "`.
pub proof fn lemma_path_summary_concat(e1: Seq<PathEntry>, e2: Seq<PathEntry>, user: Seq<char>)
    requires
        some_listed(e1),
        some_listed(e2),
    ensures
        path_summary(e1 + e2, user) == path_summary(e1, user) + ", "@ + path_summary(e2, user),
{
    let home = home_of(user);
    lemma_listing_concat(e1, e2, home);
    lemma_listing_ends_with_separator(e1, home);
    lemma_listing_ends_with_separator(e2, home);
    let l1 = path_listing(e1, home);
    let l2 = path_listing(e2, home);
    assert(l1 =~= l1.take(l1.len() - 2) + ", "@);
    assert((l1 + l2).take((l1 + l2).len() - 2) =~= l1.take(l1.len() - 2) + ", "@ + l2.take(
        l2.len() - 2,
    ));
}

/// For `"path"`, the summary of a `PATH` made of two parts (the directories
/// of each, with the same counts) is the two summaries joined by `", "`,
/// and the parts' directories are the two splits one after the other.
pub proof fn lemma_packages_path_concat(
    p1: Seq<char>,
    p2: Seq<char>,
    managers: ManagerReport,
    e1: Seq<PathEntry>,
    e2: Seq<PathEntry>,
    user: Seq<char>,
)
    requires
        some_listed(e1),
        some_listed(e2),
    ensures
        split(p1.push(':') + p2, ':') == split(p1, ':') + split(p2, ':'),
        packages_text("path"@, managers, e1 + e2, user) == packages_text("path"@, managers, e1, user)
            + ", "@ + packages_text("path"@, managers, e2, user),
{
    crate::text::lemma_split_concat(p1, p2, ':');
    lemma_path_summary_concat(e1, e2, user);
    reveal_strlit("path");
    reveal_strlit("package-managers");
    assert("path"@ != "package-managers"@) by {
        assert("path"@.len() != "package-managers"@.len());
    }
}

/// A single directory with a name and at least one program is listed as
/// `name (count)`, its home part shown as `~`; a directory with no name,
/// that does not exist, or that is empty, is not listed.
pub proof fn lemma_single_directory(e: PathEntry, user: Seq<char>)
    ensures
        e.dir@.len() > 0 && (e.count matches Some(n) && n >= 1) ==> path_summary(seq![e], user)
            == shown_dir(e.dir@, home_of(user)) + " ("@ + decimal(e.count->0 as nat) + ")"@,
        !(e.dir@.len() > 0 && (e.count matches Some(n) && n >= 1)) ==> path_listing(
            seq![e],
            home_of(user),
        ).len() == 0,
{
    let home = home_of(user);
    let one = seq![e];
    assert(one.drop_last() =~= Seq::<PathEntry>::empty());
    assert(one.last() == e);
    assert(path_listing(one.drop_last(), home) == Seq::<char>::empty());
    assert(path_listing(one, home) == path_listing(one.drop_last(), home) + if is_listed(e) {
        entry_text(e, home)
    } else {
        seq![]
    });
    if e.dir@.len() > 0 && (e.count matches Some(n) && n >= 1) {
        reveal_strlit("), ");
        reveal_strlit(")");
        assert(is_listed(e));
        let x = shown_dir(e.dir@, home) + " ("@ + decimal(e.count->0 as nat);
        assert(entry_text(e, home) == x + "), "@);
        assert(path_listing(one, home) =~= x + "), "@);
        assert((x + "), "@).take((x + "), "@).len() - 2) =~= x + ")"@);
    } else {
        assert(!is_listed(e));
        assert(path_listing(one, home) =~= Seq::<char>::empty());
    }
}

/// Each manager's part stands on its own: with Cargo installed the summary
/// is `Cargo (n)` followed by the summary without Cargo, and with Flatpak
/// installed it is the summary without Flatpak followed by
/// `, Flatpak (n)`, whatever else is installed.
pub proof fn lemma_manager_parts(r: ManagerReport)
    ensures
        r.cargo matches Some(n) ==> manager_summary(r) == "Cargo ("@ + decimal(n as nat) + ")"@
            + manager_summary(
            (ManagerReport { cargo: None, pacman: r.pacman, apt: r.apt, flatpak: r.flatpak }),
        ),
        r.flatpak matches Some(n) ==> manager_summary(r) == manager_summary(
            (ManagerReport { cargo: r.cargo, pacman: r.pacman, apt: r.apt, flatpak: None }),
        ) + ", Flatpak ("@ + decimal(n as nat) + ")"@,
        manager_summary((ManagerReport { cargo: None, pacman: None, apt: None, flatpak: None })).len()
            == 0,
{
    let nc = ManagerReport { cargo: None, pacman: r.pacman, apt: r.apt, flatpak: r.flatpak };
    let nf = ManagerReport { cargo: r.cargo, pacman: r.pacman, apt: r.apt, flatpak: None };
    let mid = printed_part(", Pacman ("@, r.pacman) + printed_part(", APT ("@, r.apt);
    if let Some(n) = r.cargo {
        let cp = "Cargo ("@ + decimal(n as nat) + ")"@;
        let fp = match r.flatpak { Some(m) => ", Flatpak ("@ + decimal(m as nat) + ")"@, None => seq![] };
        assert(manager_summary(r) =~= cp + (mid + fp)) by {
            assert(manager_summary(r) == cp + printed_part(", Pacman ("@, r.pacman) + printed_part(", APT ("@, r.apt) + fp);
        }
        assert(manager_summary(nc) =~= mid + fp) by {
            assert(manager_summary(nc) == seq![] + printed_part(", Pacman ("@, r.pacman) + printed_part(", APT ("@, r.apt) + fp);
        }
    }
    if let Some(m) = r.flatpak {
        let cp = match r.cargo { Some(n) => "Cargo ("@ + decimal(n as nat) + ")"@, None => seq![] };
        assert(manager_summary(nf) =~= cp + mid) by {
            assert(manager_summary(nf) == cp + printed_part(", Pacman ("@, r.pacman) + printed_part(", APT ("@, r.apt) + seq![]);
        }
    }
    let e = ManagerReport { cargo: None, pacman: None, apt: None, flatpak: None };
    assert(manager_summary(e) =~= Seq::<char>::empty());
}

/// The `PATH` directories with their program counts, without the final
/// separator. Some directory must be listed (cutting the separator off an
/// empty listing underflows).
pub fn path_binaries(entries: &Vec<PathEntry>, user: &str) -> (res: String)
    requires
        some_listed(entries@),
    ensures
        res@ == path_summary(entries@, user@),
{
    let home = chars_of(home_dir(user).as_str());
    proof { reveal_strlit("/home/"); }
    let mut v: Vec<char> = Vec::new();
    let mut i: usize = 0;
    assert(entries@.take(0) =~= Seq::<PathEntry>::empty());
    while i < entries.len()
        invariant
            i <= entries@.len(),
            home@ == home_of(user@),
            home@.len() > 0,
            v@ == path_listing(entries@.take(i as int), home@),
        decreases entries@.len() - i,
    {
        assert(entries@.take(i + 1).drop_last() =~= entries@.take(i as int));
        assert(entries@.take(i + 1).last() == entries@[i as int]);
        let e = &entries[i];
        let listed = e.dir.as_str().unicode_len() > 0 && match e.count {
            Some(n) => n != 0,
            None => false,
        };
        if listed {
            push_entry(&mut v, e, &home);
        } else {
            assert(v@ =~= v@ + seq![]);
        }
        i = i + 1;
    }
    assert(entries@.take(entries@.len() as int) =~= entries@);
    proof { lemma_listing_long(entries@, home@); }
    let n = v.len();
    string_of(&sub_chars(&v, 0, n - 2))
}

/// The package summary for `which` (see [`packages_text`]). `managers` is
/// read only for `"package-managers"`, `entries` only for `"path"`.
pub fn packages(which: &str, managers: &ManagerReport, entries: &Vec<PathEntry>, user: &str) -> (res: Option<String>)
    requires
        which@ == "path"@ ==> some_listed(entries@),
    ensures
        res matches Some(t) && t@ == packages_text(which@, *managers, entries@, user@),
{
    let w = chars_of(which);
    if chars_eq(&w, &chars_of("package-managers")) {
        Some(package_managers(managers))
    } else if chars_eq(&w, &chars_of("path")) {
        Some(path_binaries(entries, user))
    } else {
        Some(string_of(&Vec::new()))
    }
}

} // verus!
