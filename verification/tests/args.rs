use mk::args::{parse, parse_makeflags, Args};
use mk::error::{Error, Level};

fn strs(v: &[&str]) -> Vec<String> {
    v.iter().map(|s| s.to_string()).collect()
}

fn failure(v: &[&str]) -> String {
    let e: Error = parse(&strs(v), 4).unwrap_err();
    e.message(&Level { depth: 0 })
}

#[test]
fn default_args() {
    let args = parse(&[], 4).unwrap();
    assert!(args.makefiles.is_empty());
    assert!(args.targets.is_empty());
    assert!(!args.dry_run);
    assert_eq!(args.jobs, 1);
}

#[test]
fn short_flags() {
    let argv = strs(&["-k", "-n", "-s"]);
    let args = parse(&argv, 4).unwrap();
    assert!(args.keep_going);
    assert!(args.dry_run);
    assert!(args.silent);
}

#[test]
fn combined_short_flags() {
    let argv = strs(&["-kn"]);
    let args = parse(&argv, 4).unwrap();
    assert!(args.keep_going);
    assert!(args.dry_run);
}

#[test]
fn file_flag() {
    let argv = strs(&["-f", "my.mk"]);
    let args = parse(&argv, 4).unwrap();
    assert_eq!(args.makefiles, vec!["my.mk"]);
}

#[test]
fn file_flag_attached() {
    let argv = strs(&["-fmy.mk"]);
    let args = parse(&argv, 4).unwrap();
    assert_eq!(args.makefiles, vec!["my.mk"]);
}

#[test]
fn long_file_flag() {
    let argv = strs(&["--file=my.mk"]);
    let args = parse(&argv, 4).unwrap();
    assert_eq!(args.makefiles, vec!["my.mk"]);
}

#[test]
fn var_override() {
    let argv = strs(&["CC=clang", "CFLAGS=-O2"]);
    let args = parse(&argv, 4).unwrap();
    assert_eq!(
        args.overrides,
        vec![("CC".into(), "clang".into()), ("CFLAGS".into(), "-O2".into())]
    );
}

#[test]
fn targets_and_overrides() {
    let argv = strs(&["all", "CC=gcc", "install"]);
    let args = parse(&argv, 4).unwrap();
    assert_eq!(args.targets, vec!["all", "install"]);
    assert_eq!(args.overrides, vec![("CC".into(), "gcc".into())]);
}

#[test]
fn jobs_flag() {
    let argv = strs(&["-j4"]);
    let args = parse(&argv, 4).unwrap();
    assert_eq!(args.jobs, 4);
}

#[test]
fn jobs_flag_separated() {
    let argv = strs(&["-j", "8"]);
    // -j takes no separate argument; -j8 is the form
    let argv2 = strs(&["-j8"]);
    let args = parse(&argv2, 4).unwrap();
    assert_eq!(args.jobs, 8);
    let _ = argv;
}

#[test]
fn include_dir() {
    let argv = strs(&["-I", "/usr/include/make"]);
    let args = parse(&argv, 4).unwrap();
    assert_eq!(args.include_dirs, vec!["/usr/include/make"]);
}

#[test]
fn directory_flag() {
    let argv = strs(&["-C", "/tmp"]);
    let args = parse(&argv, 4).unwrap();
    assert_eq!(args.directory, Some("/tmp".to_string()));
}

#[test]
fn makeflags_letters() {
    let args = parse_makeflags("kn", 4).unwrap();
    assert!(args.keep_going);
    assert!(args.dry_run);
}

#[test]
fn makeflags_with_dash() {
    let args = parse_makeflags("-k -n", 4).unwrap();
    assert!(args.keep_going);
    assert!(args.dry_run);
}

#[test]
fn unknown_flag_error() {
    let argv = strs(&["--bogus-flag"]);
    assert!(parse(&argv, 4).is_err());
}

#[test]
fn bare_jobs_means_one_per_processor() {
    let args = parse(&strs(&["-j", "8"]), 6).unwrap();
    assert_eq!(args.jobs, 6);
    assert_eq!(args.targets, vec!["8"]);
    assert_eq!(parse(&strs(&["--jobs=0"]), 6).unwrap().jobs, 6);
    assert_eq!(parse(&strs(&["--jobs=+9"]), 6).unwrap().jobs, 9);
}

#[test]
fn bad_arguments() {
    assert_eq!(failure(&["--bogus"]), "mk: *** unrecognized option '--bogus'.  Stop.");
    assert_eq!(failure(&["-"]), "mk: *** unrecognized option '-'.  Stop.");
    assert_eq!(failure(&["-kK"]), "mk: *** unrecognized option '-K'.  Stop.");
    assert_eq!(failure(&["-jx"]), "mk: *** invalid -j argument 'x'.  Stop.");
    assert_eq!(failure(&["--jobs="]), "mk: *** invalid --jobs argument.  Stop.");
    assert_eq!(failure(&["-f"]), "mk: *** option requires an argument -- 'f'.  Stop.");
    assert_eq!(failure(&["-C"]), "mk: *** option requires an argument -- 'C'.  Stop.");
    assert_eq!(failure(&["-I"]), "mk: *** option requires an argument -- 'I'.  Stop.");
}

#[test]
fn combined_letters_are_options_in_turn() {
    let args = parse(&strs(&["-kw"]), 4).unwrap();
    assert!(args.keep_going && args.print_directory);
    assert!(!parse(&strs(&["-kS"]), 4).unwrap().keep_going);
    assert!(parse(&strs(&["-Sk"]), 4).unwrap().keep_going);
    let args = parse(&strs(&["-k", "-Sw", "-RS"]), 4).unwrap();
    assert!(!args.keep_going);
    assert!(args.print_directory);
    assert!(args.no_builtin_rules && args.no_builtin_vars);
    let args = parse(&strs(&["-k", "-S", "-w", "--no-output-sync"]), 4).unwrap();
    assert!(!args.keep_going);
    assert!(args.print_directory);
    assert!(!args.output_sync);
}

#[test]
fn names_of_variables() {
    let args = parse(&strs(&["größe_1.x=a=b", "a-b=c", "=d"]), 4).unwrap();
    assert_eq!(args.overrides, vec![("größe_1.x".into(), "a=b".into())]);
    assert_eq!(args.targets, vec!["a-b=c", "=d"]);
}

#[test]
fn double_dash_ends_options() {
    let args = parse(&strs(&["a", "--", "-k", "X=1"]), 4).unwrap();
    assert_eq!(args.targets, vec!["a", "-k", "X=1"]);
    assert!(!args.keep_going);
}

#[test]
fn makeflags_mixed() {
    let args = parse_makeflags(" kn --no-builtin-rules  X=1 ", 4).unwrap();
    assert!(args.keep_going && args.dry_run && args.no_builtin_rules);
    assert_eq!(args.overrides, vec![("X".into(), "1".into())]);
    let none: Args = parse_makeflags("  ", 4).unwrap();
    assert_eq!(none.jobs, 1);
    assert!(none.output_sync);
}
