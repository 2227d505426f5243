//! Distribution packages: which manager a system has, which packages a run
//! wants, which of them the manager reports installed, and what is missing.
use vstd::prelude::*;

use crate::text::{
    chars_of, lemma_split_nonempty, split_chars, split_on, string_of, string_views, trim,
    trim_chars, ws_tokens, ws_tokens_of,
};

verus! {

/// The packages to install: those for every system, and those for each
/// family of distributions.
pub struct Packages {
    pub common: Vec<String>,
    pub apt: Vec<String>,
    pub dnf: Vec<String>,
}

/// The package managers known here.
#[derive(PartialEq, Eq, Structural, Clone, Copy, Debug)]
pub enum PackageManager {
    Apt,
    Dnf,
}

/// An OS identifier that maps to no known package manager.
#[derive(Debug)]
pub struct UnsupportedDistribution {
    pub id: String,
}

/// A row of a package listing that does not have the expected shape.
#[derive(Debug)]
pub struct ListingError {
    pub row: String,
}

pub open spec fn id_key() -> Seq<char> {
    seq!['I', 'D', '=']
}

/// Whether `line` sets the OS identifier.
pub open spec fn is_id_line(line: Seq<char>) -> bool {
    line.len() >= 3 && line.subrange(0, 3) == id_key()
}

/// The package manager of the distribution `id`.
pub open spec fn manager_for(id: Seq<char>) -> Option<PackageManager> {
    if id == "fedora"@ {
        Some(PackageManager::Dnf)
    } else if id == "debian"@ || id == "ubuntu"@ {
        Some(PackageManager::Apt)
    } else {
        None
    }
}

/// The packages a run wants from `m`: the common ones, then the ones of its family.
pub open spec fn desired(m: PackageManager, p: Packages) -> Seq<Seq<char>> {
    string_views(p.common@) + string_views(
        match m {
            PackageManager::Apt => p.apt@,
            PackageManager::Dnf => p.dnf@,
        },
    )
}

/// The packages of `desired` that are not in `installed`.
pub open spec fn missing_set(desired: Seq<Seq<char>>, installed: Seq<Seq<char>>) -> Set<Seq<char>> {
    desired.to_set().difference(installed.to_set())
}

/// The words of the command that installs packages with `m`.
pub open spec fn install_words(m: PackageManager) -> Seq<Seq<char>> {
    match m {
        PackageManager::Apt => seq!["apt"@, "install"@, "-y"@],
        PackageManager::Dnf => seq!["dnf"@, "install"@, "-y"@],
    }
}

/// The words of the command that lists which of some packages `m` has installed.
pub open spec fn query_words(m: PackageManager) -> Seq<Seq<char>> {
    match m {
        PackageManager::Apt => seq!["dpkg-query"@, "--list"@, "--no-pager"@],
        PackageManager::Dnf => seq!["dnf"@, "list"@, "installed"@],
    }
}

/// The rows of a dnf listing: the lines after its one header line, less
/// the empty line that the final newline leaves.
pub open spec fn dnf_rows(output: Seq<char>) -> Seq<Seq<char>> {
    let rest = split_on(output, '\n').skip(1);
    if rest.len() > 0 && rest.last().len() == 0 {
        rest.drop_last()
    } else {
        rest
    }
}

/// The package name of a dnf row `<name>.<arch> ...`: what precedes its
/// first `.`, where there is one and it is not empty.
pub open spec fn dnf_name(row: Seq<char>) -> Option<Seq<char>> {
    let pieces = split_on(row, '.');
    if pieces.len() >= 2 && pieces[0].len() > 0 {
        Some(pieces[0])
    } else {
        None
    }
}

/// The name of each row, if every row has one.
pub open spec fn dnf_names(rows: Seq<Seq<char>>) -> Option<Seq<Seq<char>>>
    decreases rows.len(),
{
    if rows.len() == 0 {
        Some(Seq::empty())
    } else {
        match (dnf_names(rows.drop_last()), dnf_name(rows.last())) {
            (Some(names), Some(name)) => Some(names.push(name)),
            _ => None,
        }
    }
}

/// The rows of a dpkg listing after its five lines of header.
pub open spec fn apt_rows(output: Seq<char>) -> Seq<Seq<char>> {
    let lines = split_on(trim(output), '\n');
    if lines.len() > 5 {
        lines.skip(5)
    } else {
        Seq::empty()
    }
}

/// The second white-space-delimited token of each row, if every row has one.
pub open spec fn apt_names(rows: Seq<Seq<char>>) -> Option<Seq<Seq<char>>>
    decreases rows.len(),
{
    if rows.len() == 0 {
        Some(Seq::empty())
    } else {
        let tokens = ws_tokens(rows.last());
        match apt_names(rows.drop_last()) {
            Some(names) => if tokens.len() >= 2 {
                Some(names.push(tokens[1]))
            } else {
                None
            },
            None => None,
        }
    }
}

/// The names of installed packages in the listing that `m` printed.
pub open spec fn installed_names(m: PackageManager, output: Seq<char>) -> Option<Seq<Seq<char>>> {
    match m {
        PackageManager::Apt => apt_names(apt_rows(output)),
        PackageManager::Dnf => dnf_names(dnf_rows(output)),
    }
}

pub proof fn lemma_views_push(v: Seq<String>, x: String)
    ensures
        string_views(v.push(x)) == string_views(v).push(x@),
{
    assert(string_views(v.push(x)) =~= string_views(v).push(x@));
}

/// `prefix` followed by clones of `rest`.
fn words_then(prefix: Vec<String>, rest: &Vec<String>) -> (r: Vec<String>)
    ensures
        string_views(r@) == string_views(prefix@) + string_views(rest@),
{
    let mut out = prefix;
    let ghost head = out@;
    let mut j: usize = 0;
    assert(string_views(rest@.subrange(0, 0)) =~= Seq::<Seq<char>>::empty());
    assert(string_views(head) + Seq::<Seq<char>>::empty() =~= string_views(head));
    while j < rest.len()
        invariant
            j <= rest@.len(),
            string_views(out@) == string_views(head) + string_views(rest@.subrange(0, j as int)),
        decreases rest@.len() - j,
    {
        let ghost before = out@;
        let item = rest[j].clone();
        out.push(item);
        proof {
            lemma_views_push(before, item);
            lemma_views_push(rest@.subrange(0, j as int), rest@[j as int]);
            assert(rest@.subrange(0, j + 1) =~= rest@.subrange(0, j as int).push(rest@[j as int]));
        }
        assert(string_views(out@) =~= string_views(head) + string_views(
            rest@.subrange(0, j + 1),
        ));
        j += 1;
    }
    assert(rest@.subrange(0, rest@.len() as int) =~= rest@);
    out
}

/// The OS identifier in the text of an os-release file: all that follows
/// `ID=` on the first line that starts with it.
pub fn get_os_id(os_release: &str) -> (r: Option<String>)
    ensures
        ({
            let lines = split_on(os_release@, '\n');
            match r {
                Some(id) => exists|i: int|
                    0 <= i < lines.len() && is_id_line(#[trigger] lines[i]) && (forall|j: int|
                        0 <= j < i ==> !is_id_line(#[trigger] lines[j])) && id@ == lines[i].subrange(
                        3,
                        lines[i].len() as int,
                    ),
                None => forall|i: int| 0 <= i < lines.len() ==> !is_id_line(#[trigger] lines[i]),
            }
        }),
{
    let lines = split_chars(&chars_of(os_release), '\n');
    let ghost views = split_on(os_release@, '\n');
    let mut i: usize = 0;
    while i < lines.len()
        invariant
            i <= lines@.len(),
            views == crate::text::char_views(lines@),
            views == split_on(os_release@, '\n'),
            forall|j: int| 0 <= j < i ==> !is_id_line(#[trigger] views[j]),
        decreases lines@.len() - i,
    {
        let line = &lines[i];
        assert(views[i as int] == line@);
        if line.len() >= 3 && line[0] == 'I' && line[1] == 'D' && line[2] == '=' {
            assert(line@.subrange(0, 3) =~= id_key());
            let mut value: Vec<char> = Vec::new();
            let mut k: usize = 3;
            while k < line.len()
                invariant
                    3 <= k <= line@.len(),
                    value@ == line@.subrange(3, k as int),
                decreases line@.len() - k,
            {
                value.push(line[k]);
                assert(value@ =~= line@.subrange(3, k + 1));
                k += 1;
            }
            assert(is_id_line(views[i as int]));
            return Some(string_of(&value));
        }
        assert(!is_id_line(views[i as int])) by {
            if line@.len() >= 3 && line@.subrange(0, 3) == id_key() {
                assert(line@[0] == line@.subrange(0, 3)[0]);
                assert(line@[1] == line@.subrange(0, 3)[1]);
                assert(line@[2] == line@.subrange(0, 3)[2]);
            }
        }
        i += 1;
    }
    None
}

proof fn lemma_to_set_push(s: Seq<Seq<char>>, x: Seq<char>)
    ensures
        s.push(x).to_set() == s.to_set().insert(x),
{
    assert forall|a: Seq<char>| #[trigger]
        s.push(x).to_set().contains(a) <==> s.to_set().insert(x).contains(a) by {
        if s.push(x).contains(a) {
            let k = choose|k: int| 0 <= k < s.push(x).len() && s.push(x)[k] == a;
            if k < s.len() {
                assert(s[k] == a);
            }
        }
        if s.contains(a) {
            let k = choose|k: int| 0 <= k < s.len() && s[k] == a;
            assert(s.push(x)[k] == a);
        }
        if a == x {
            assert(s.push(x)[s.len() as int] == a);
        }
    }
    assert(s.push(x).to_set() =~= s.to_set().insert(x));
}

/// The packages of `desired` that `installed` lacks, each once.
pub fn missing_packages(desired: &Vec<String>, installed: &Vec<String>) -> (r: Vec<String>)
    ensures
        string_views(r@).to_set() == missing_set(string_views(desired@), string_views(installed@)),
        string_views(r@).no_duplicates(),
{
    let ghost d = string_views(desired@);
    let ghost ins = string_views(installed@);
    let mut out: Vec<String> = Vec::new();
    let mut i: usize = 0;
    while i < desired.len()
        invariant
            i <= desired@.len(),
            d == string_views(desired@),
            ins == string_views(installed@),
            string_views(out@).no_duplicates(),
            string_views(out@).to_set() == missing_set(d.subrange(0, i as int), ins),
        decreases desired@.len() - i,
    {
        let name = &desired[i];
        let in_installed = contains_string(installed, name);
        let in_out = contains_string(&out, name);
        assert(d.subrange(0, i + 1) =~= d.subrange(0, i as int).push(name@));
        proof {
            lemma_to_set_push(d.subrange(0, i as int), name@);
        }
        if !in_installed && !in_out {
            let ghost before = string_views(out@);
            out.push(name.clone());
            assert(string_views(out@) =~= before.push(name@));
            proof {
                lemma_to_set_push(before, name@);
            }
            assert(string_views(out@).to_set() =~= missing_set(d.subrange(0, i + 1), ins));
        } else {
            assert(string_views(out@).to_set() =~= missing_set(d.subrange(0, i + 1), ins));
        }
        i += 1;
    }
    assert(d.subrange(0, d.len() as int) =~= d);
    out
}

/// Whether `v` holds a string equal to `s`.
fn contains_string(v: &Vec<String>, s: &String) -> (r: bool)
    ensures
        r == string_views(v@).contains(s@),
{
    let mut i: usize = 0;
    while i < v.len()
        invariant
            i <= v@.len(),
            forall|j: int| 0 <= j < i ==> v@[j]@ != s@,
        decreases v@.len() - i,
    {
        if v[i] == *s {
            assert(string_views(v@)[i as int] == s@);
            return true;
        }
        i += 1;
    }
    assert(!string_views(v@).contains(s@)) by {
        if string_views(v@).contains(s@) {
            let j = choose|j: int| 0 <= j < string_views(v@).len() && string_views(v@)[j] == s@;
            assert(v@[j]@ == s@);
        }
    }
    false
}


fn dnf_listing(output: &str) -> (r: Result<Vec<String>, ListingError>)
    ensures
        match r {
            Ok(v) => dnf_names(dnf_rows(output@)) == Some(string_views(v@)),
            Err(_) => dnf_names(dnf_rows(output@)) is None,
        },
{
    let lines = split_chars(&chars_of(output), '\n');
    let ghost all = split_on(output@, '\n');
    let ghost rows = dnf_rows(output@);
    proof {
        lemma_split_nonempty(output@, '\n');
    }
    let mut end = lines.len();
    if end > 1 && lines[end - 1].len() == 0 {
        end = end - 1;
    }
    assert(rows =~= all.subrange(1, end as int));
    let mut out: Vec<String> = Vec::new();
    let mut i: usize = 1;
    assert(rows.subrange(0, 0) =~= Seq::<Seq<char>>::empty());
    assert(string_views(out@) =~= Seq::<Seq<char>>::empty());
    while i < end
        invariant
            1 <= i <= end <= lines@.len(),
            all == crate::text::char_views(lines@),
            rows == all.subrange(1, end as int),
            rows == dnf_rows(output@),
            dnf_names(rows.subrange(0, i - 1)) == Some(string_views(out@)),
        decreases end - i,
    {
        let mut pieces = split_chars(&lines[i], '.');
        proof {
            lemma_split_nonempty(lines@[i as int]@, '.');
        }
        assert(rows.subrange(0, i as int).drop_last() =~= rows.subrange(0, i - 1));
        assert(rows.subrange(0, i as int).last() == lines@[i as int]@);
        if pieces.len() < 2 || pieces[0].len() == 0 {
            proof {
                lemma_dnf_names_prefix(rows, i as int);
            }
            return Err(ListingError { row: string_of(&lines[i]) });
        }
        let name = pieces.swap_remove(0);
        let ghost before = out@;
        let item = string_of(&name);
        out.push(item);
        proof {
            lemma_views_push(before, item);
        }
        i += 1;
    }
    assert(rows.subrange(0, rows.len() as int) =~= rows);
    Ok(out)
}

proof fn lemma_dnf_names_prefix(rows: Seq<Seq<char>>, k: int)
    requires
        0 <= k <= rows.len(),
        dnf_names(rows.subrange(0, k)) is None,
    ensures
        dnf_names(rows) is None,
    decreases rows.len() - k,
{
    if k < rows.len() {
        assert(rows.subrange(0, k + 1).drop_last() =~= rows.subrange(0, k));
        lemma_dnf_names_prefix(rows, k + 1);
    } else {
        assert(rows.subrange(0, k) =~= rows);
    }
}

fn apt_listing(output: &str) -> (r: Result<Vec<String>, ListingError>)
    ensures
        match r {
            Ok(v) => apt_names(apt_rows(output@)) == Some(string_views(v@)),
            Err(_) => apt_names(apt_rows(output@)) is None,
        },
{
    let lines = split_chars(&trim_chars(&chars_of(output)), '\n');
    let ghost all = split_on(trim(output@), '\n');
    let mut out: Vec<String> = Vec::new();
    if lines.len() <= 5 {
        assert(apt_rows(output@) =~= Seq::<Seq<char>>::empty());
        return Ok(out);
    }
    let ghost rows = apt_rows(output@);
    assert(rows =~= all.skip(5));
    let mut i: usize = 5;
    assert(rows.subrange(0, 0) =~= Seq::<Seq<char>>::empty());
    assert(string_views(out@) =~= Seq::<Seq<char>>::empty());
    while i < lines.len()
        invariant
            5 <= i <= lines@.len(),
            all == crate::text::char_views(lines@),
            rows == all.skip(5),
            rows == apt_rows(output@),
            apt_names(rows.subrange(0, i - 5)) == Some(string_views(out@)),
        decreases lines@.len() - i,
    {
        let mut tokens = ws_tokens_of(&lines[i]);
        assert(rows.subrange(0, i - 4).drop_last() =~= rows.subrange(0, i - 5));
        assert(rows.subrange(0, i - 4).last() == lines@[i as int]@);
        if tokens.len() < 2 {
            proof {
                lemma_apt_names_prefix(rows, i - 4);
            }
            return Err(ListingError { row: string_of(&lines[i]) });
        }
        let name = tokens.swap_remove(1);
        let ghost before = out@;
        let item = string_of(&name);
        out.push(item);
        proof {
            lemma_views_push(before, item);
        }
        i += 1;
    }
    assert(rows.subrange(0, rows.len() as int) =~= rows);
    Ok(out)
}

proof fn lemma_apt_names_prefix(rows: Seq<Seq<char>>, k: int)
    requires
        0 <= k <= rows.len(),
        apt_names(rows.subrange(0, k)) is None,
    ensures
        apt_names(rows) is None,
    decreases rows.len() - k,
{
    if k < rows.len() {
        assert(rows.subrange(0, k + 1).drop_last() =~= rows.subrange(0, k));
        lemma_apt_names_prefix(rows, k + 1);
    } else {
        assert(rows.subrange(0, k) =~= rows);
    }
}

impl PackageManager {
    /// The package manager of the distribution `id`.
    pub fn from_os_id(id: &str) -> (r: Result<PackageManager, UnsupportedDistribution>)
        ensures
            match r {
                Ok(m) => manager_for(id@) == Some(m),
                Err(e) => manager_for(id@) is None && e.id@ == id@,
            },
    {
        let id = id.to_owned();
        if id == "fedora".to_owned() {
            Ok(PackageManager::Dnf)
        } else if id == "debian".to_owned() || id == "ubuntu".to_owned() {
            Ok(PackageManager::Apt)
        } else {
            Err(UnsupportedDistribution { id })
        }
    }

    /// The packages of this manager's family.
    pub fn get_specialized_packages(&self, packages: &Packages) -> (r: Vec<String>)
        ensures
            string_views(r@) == string_views(
                match *self {
                    PackageManager::Apt => packages.apt@,
                    PackageManager::Dnf => packages.dnf@,
                },
            ),
    {
        match self {
            PackageManager::Apt => words_then(Vec::new(), &packages.apt),
            PackageManager::Dnf => words_then(Vec::new(), &packages.dnf),
        }
    }

    /// The packages a run wants: the common ones, then those of this family.
    pub fn get_package_list(&self, packages: &Packages) -> (r: Vec<String>)
        ensures
            string_views(r@) == desired(*self, *packages),
    {
        let common = words_then(Vec::new(), &packages.common);
        words_then(common, &self.get_specialized_packages(packages))
    }

    /// The command, without elevation, that installs packages.
    pub fn get_install_command(&self) -> (r: Vec<String>)
        ensures
            string_views(r@) == install_words(*self),
    {
        let r = match self {
            PackageManager::Apt => vec!["apt".to_owned(), "install".to_owned(), "-y".to_owned()],
            PackageManager::Dnf => vec!["dnf".to_owned(), "install".to_owned(), "-y".to_owned()],
        };
        assert(string_views(r@) =~= install_words(*self));
        r
    }

    /// The command that lists which of `candidates` are installed.
    pub fn query_command(&self, candidates: &Vec<String>) -> (r: Vec<String>)
        ensures
            string_views(r@) == query_words(*self) + string_views(candidates@),
    {
        let words = match self {
            PackageManager::Apt => vec![
                "dpkg-query".to_owned(),
                "--list".to_owned(),
                "--no-pager".to_owned(),
            ],
            PackageManager::Dnf => vec!["dnf".to_owned(), "list".to_owned(), "installed".to_owned()],
        };
        assert(string_views(words@) =~= query_words(*self));
        words_then(words, candidates)
    }

    /// The names of the installed packages in the listing this manager
    /// printed; an error names a row of a shape it does not have.
    pub fn get_installed(&self, output: &str) -> (r: Result<Vec<String>, ListingError>)
        ensures
            match r {
                Ok(v) => installed_names(*self, output@) == Some(string_views(v@)),
                Err(_) => installed_names(*self, output@) is None,
            },
    {
        match self {
            PackageManager::Apt => apt_listing(output),
            PackageManager::Dnf => dnf_listing(output),
        }
    }

    /// The wanted packages that `installed` lacks, each once.
    pub fn get_non_installed(&self, packages: &Packages, installed: &Vec<String>) -> (r: Vec<
        String,
    >)
        ensures
            string_views(r@).to_set() == missing_set(
                desired(*self, *packages),
                string_views(installed@),
            ),
            string_views(r@).no_duplicates(),
    {
        missing_packages(&self.get_package_list(packages), installed)
    }

    /// The elevated command that installs `missing`, or `None` when nothing
    /// is missing and nothing is to run.
    pub fn install_args(&self, missing: &Vec<String>) -> (r: Option<Vec<String>>)
        ensures
            match r {
                Some(args) => missing@.len() > 0 && string_views(args@) == seq!["sudo"@]
                    + install_words(*self) + string_views(missing@),
                None => missing@.len() == 0,
            },
    {
        if missing.len() == 0 {
            return None;
        }
        let sudo = vec!["sudo".to_owned()];
        assert(string_views(sudo@) =~= seq!["sudo"@]);
        let cmd = words_then(sudo, &self.get_install_command());
        Some(words_then(cmd, missing))
    }
}

/// Given the listing that `manager` printed for the wanted packages, the
/// elevated command that installs the missing ones, or `None` when none is
/// missing.
pub fn install(manager: PackageManager, packages: &Packages, query_output: &str) -> (r: Result<
    Option<Vec<String>>,
    ListingError,
>)
    ensures
        match r {
            Err(_) => installed_names(manager, query_output@) is None,
            Ok(plan) => match installed_names(manager, query_output@) {
                None => false,
                Some(names) => {
                    let missing = missing_set(desired(manager, *packages), names);
                    match plan {
                        None => missing == Set::<Seq<char>>::empty(),
                        Some(args) => {
                            let words = string_views(args@);
                            let prefix = seq!["sudo"@] + install_words(manager);
                            &&& missing != Set::<Seq<char>>::empty()
                            &&& words.subrange(0, 4) == prefix
                            &&& words.skip(4).to_set() == missing
                            &&& words.skip(4).no_duplicates()
                        },
                    }
                },
            },
        },
{
    let installed = match manager.get_installed(query_output) {
        Ok(v) => v,
        Err(e) => {
            return Err(e);
        },
    };
    let missing = manager.get_non_installed(packages, &installed);
    proof {
        lemma_empty_to_set(string_views(missing@));
    }
    let plan = manager.install_args(&missing);
    if let Some(args) = &plan {
        let ghost words = string_views(args@);
        let ghost prefix = seq!["sudo"@] + install_words(manager);
        assert(prefix.len() == 4);
        assert(words.subrange(0, 4) =~= prefix);
        assert(words.skip(4) =~= string_views(missing@));
    }
    Ok(plan)
}

proof fn lemma_empty_to_set(s: Seq<Seq<char>>)
    ensures
        (s.len() == 0) == (s.to_set() == Set::<Seq<char>>::empty()),
{
    if s.len() > 0 {
        assert(s.to_set().contains(s[0]));
    } else {
        assert(s.to_set() =~= Set::<Seq<char>>::empty());
    }
}

/// Nothing is missing when everything wanted is installed: the missing set
/// is empty, and so is every list of packages that holds exactly it.
pub proof fn law_nothing_missing_when_installed(
    desired: Seq<Seq<char>>,
    installed: Seq<Seq<char>>,
)
    requires
        desired.to_set().subset_of(installed.to_set()),
    ensures
        missing_set(desired, installed) == Set::<Seq<char>>::empty(),
        forall|missing: Seq<Seq<char>>|
            #[trigger] missing.to_set() == missing_set(desired, installed) ==> missing.len() == 0,
{
    assert(missing_set(desired, installed) =~= Set::<Seq<char>>::empty());
    assert forall|missing: Seq<Seq<char>>|
        #[trigger] missing.to_set() == missing_set(desired, installed) implies missing.len() == 0 by {
        lemma_empty_to_set(missing);
    }
}

} // verus!
