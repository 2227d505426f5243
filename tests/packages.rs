use lhn::pkg::{get_os_id, install, missing_packages, PackageManager, Packages};

fn strings(v: &[&str]) -> Vec<String> {
    v.iter().map(|s| s.to_string()).collect()
}

fn sorted(mut v: Vec<String>) -> Vec<String> {
    v.sort();
    v
}

fn sample() -> Packages {
    Packages {
        common: strings(&["git", "curl"]),
        apt: strings(&["build-essential"]),
        dnf: strings(&["gcc", "make"]),
    }
}

#[test]
fn missing_is_difference() {
    let r = missing_packages(&strings(&["a", "b", "c"]), &strings(&["b", "c"]));
    assert_eq!(r, strings(&["a"]));
}

#[test]
fn nothing_missing_when_all_installed() {
    let r = missing_packages(&strings(&["a", "b"]), &strings(&["b", "a", "z"]));
    assert!(r.is_empty());
}

#[test]
fn missing_has_no_duplicates() {
    let r = missing_packages(&strings(&["a", "a", "b"]), &strings(&[]));
    assert_eq!(sorted(r), strings(&["a", "b"]));
}

#[test]
fn names_compare_exactly() {
    let r = missing_packages(&strings(&["Vim"]), &strings(&["vim"]));
    assert_eq!(r, strings(&["Vim"]));
}

#[test]
fn detects_distributions() {
    assert_eq!(PackageManager::from_os_id("fedora").unwrap(), PackageManager::Dnf);
    assert_eq!(PackageManager::from_os_id("debian").unwrap(), PackageManager::Apt);
    assert_eq!(PackageManager::from_os_id("ubuntu").unwrap(), PackageManager::Apt);
    assert_eq!(PackageManager::from_os_id("arch").unwrap_err().id, "arch");
}

#[test]
fn reads_os_id() {
    let text = "NAME=\"Ubuntu\"\nVERSION_ID=\"22.04\"\nID=ubuntu\nID_LIKE=debian\n";
    assert_eq!(get_os_id(text), Some("ubuntu".to_string()));
    assert_eq!(get_os_id("NAME=x\n"), None);
    assert_eq!(get_os_id("ID=a=b"), Some("a=b".to_string()));
    assert_eq!(get_os_id("IDX=1\nID=\"fedora\""), Some("\"fedora\"".to_string()));
}

#[test]
fn desired_is_common_then_family() {
    let p = sample();
    assert_eq!(
        PackageManager::Dnf.get_package_list(&p),
        strings(&["git", "curl", "gcc", "make"])
    );
    assert_eq!(
        PackageManager::Apt.get_package_list(&p),
        strings(&["git", "curl", "build-essential"])
    );
    assert_eq!(PackageManager::Apt.get_specialized_packages(&p), strings(&["build-essential"]));
}

#[test]
fn commands() {
    assert_eq!(PackageManager::Apt.get_install_command(), strings(&["apt", "install", "-y"]));
    assert_eq!(PackageManager::Dnf.get_install_command(), strings(&["dnf", "install", "-y"]));
    assert_eq!(
        PackageManager::Dnf.query_command(&strings(&["gcc"])),
        strings(&["dnf", "list", "installed", "gcc"])
    );
    assert_eq!(
        PackageManager::Apt.query_command(&strings(&["git"])),
        strings(&["dpkg-query", "--list", "--no-pager", "git"])
    );
}

const DNF_OUT: &str = "Installed Packages\ngcc.x86_64    13.2.1-4.fc39   @updates\ngit.x86_64  2.43.0-1.fc39  @updates\n";

#[test]
fn dnf_listing_names() {
    let r = PackageManager::Dnf.get_installed(DNF_OUT).unwrap();
    assert_eq!(r, strings(&["gcc", "git"]));
}

#[test]
fn dnf_listing_without_final_newline() {
    let r = PackageManager::Dnf.get_installed("Installed Packages\nvim.x86_64 9.0").unwrap();
    assert_eq!(r, strings(&["vim"]));
    assert!(PackageManager::Dnf.get_installed("Installed Packages\n").unwrap().is_empty());
}

#[test]
fn dnf_listing_bad_row() {
    let e = PackageManager::Dnf.get_installed("Installed Packages\nno-arch-here\n").unwrap_err();
    assert_eq!(e.row, "no-arch-here");
    let e = PackageManager::Dnf.get_installed("Installed Packages\n\ngcc.x86_64 1\n").unwrap_err();
    assert_eq!(e.row, "");
    let e = PackageManager::Dnf.get_installed("Installed Packages\n.x86_64 1\n").unwrap_err();
    assert_eq!(e.row, ".x86_64 1");
}

const APT_OUT: &str = "Desired=Unknown/Install/Remove/Purge/Hold
| Status=Not/Inst/Conf-files/Unpacked/halF-conf/Half-inst/trig-aWait/Trig-pend
|/ Err?=(none)/Reinst-required (Status,Err: uppercase=bad)
||/ Name           Version      Architecture Description
+++-==============-============-============-=================
ii  git            1:2.34.1     amd64        fast, scalable, distributed revision control system
un  curl           <none>       <none>       (no description available)
";

#[test]
fn apt_listing_names() {
    let r = PackageManager::Apt.get_installed(APT_OUT).unwrap();
    assert_eq!(r, strings(&["git", "curl"]));
}

#[test]
fn apt_listing_header_only() {
    let r = PackageManager::Apt.get_installed("a\nb\nc\nd\ne\n").unwrap();
    assert!(r.is_empty());
}

#[test]
fn apt_listing_bad_row() {
    let out = "h1\nh2\nh3\nh4\nh5\nii git 1 amd64 x\nlonely\n";
    let e = PackageManager::Apt.get_installed(out).unwrap_err();
    assert_eq!(e.row, "lonely");
}

#[test]
fn non_installed_for_family() {
    let r = PackageManager::Dnf.get_non_installed(&sample(), &strings(&["gcc", "git"]));
    assert_eq!(sorted(r), strings(&["curl", "make"]));
}

#[test]
fn install_args_prefix() {
    assert_eq!(PackageManager::Apt.install_args(&strings(&[])), None);
    assert_eq!(
        PackageManager::Apt.install_args(&strings(&["vim"])),
        Some(strings(&["sudo", "apt", "install", "-y", "vim"]))
    );
}

#[test]
fn install_plans_missing_only() {
    let args = install(PackageManager::Dnf, &sample(), DNF_OUT).unwrap().unwrap();
    assert_eq!(args[..4].to_vec(), strings(&["sudo", "dnf", "install", "-y"]));
    assert_eq!(sorted(args[4..].to_vec()), strings(&["curl", "make"]));
}

#[test]
fn install_nothing_when_all_present() {
    let p = Packages { common: strings(&["git"]), apt: strings(&["curl"]), dnf: strings(&[]) };
    assert_eq!(install(PackageManager::Apt, &p, APT_OUT).unwrap(), None);
}

#[test]
fn install_surfaces_bad_listing() {
    let out = "h1\nh2\nh3\nh4\nh5\nbroken\n";
    assert!(install(PackageManager::Apt, &sample(), out).is_err());
}
