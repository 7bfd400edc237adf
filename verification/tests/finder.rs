use uv_detect::engine::finder::{is_python_file, local_package_name, PythonFileFinder};

#[test]
fn default_finder_skips_dot_venv_venv_and_git() {
    let finder = PythonFileFinder::new();
    assert!(finder.is_excluded_dir("venv"));
    assert!(finder.is_excluded_dir(".git"));
    assert!(finder.is_excluded_dir(".venv"));
    assert!(!finder.is_excluded_dir("src"));
    assert!(!finder.keeps_entry(true, Some(".venv")));
    assert!(!finder.keeps_entry(true, Some("venv")));
    assert!(!finder.keeps_entry(true, Some(".git")));
}

#[test]
fn extra_exclusions_add_to_the_defaults() {
    let finder = PythonFileFinder::new().exclude_dirs(vec!["build".to_string()]);
    assert!(finder.is_excluded_dir("build"));
    assert!(finder.is_excluded_dir("venv"));
    assert!(!finder.keeps_entry(true, Some("build")));
    assert!(finder.keeps_entry(false, Some("build")));
    assert!(finder.keeps_entry(true, None));
    assert!(finder.keeps_entry(true, Some("pkg")));
}

#[test]
fn python_files_are_files_ending_in_py() {
    assert!(is_python_file(true, Some("py")));
    assert!(!is_python_file(false, Some("py")));
    assert!(!is_python_file(true, Some("pyc")));
    assert!(!is_python_file(true, None));
}

#[test]
fn local_package_names_are_file_stems() {
    assert_eq!(local_package_name("mymod.py"), "mymod");
    assert_eq!(local_package_name("pkg"), "pkg");
    assert_eq!(local_package_name("a.tar.gz"), "a.tar");
    assert_eq!(local_package_name(".hidden"), ".hidden");
    assert_eq!(local_package_name(".."), "..");
    assert_eq!(local_package_name("x."), "x");
}
