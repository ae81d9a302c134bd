use quartermaster::cli::{positional, take_opt};
use quartermaster::explain::report;
use quartermaster::incompat::{Cause, Incompatibility};
use quartermaster::install::installed_manifest;
use quartermaster::lock::Lockfile;
use quartermaster::manifest::Manifest;
use quartermaster::range::{self, Range};
use quartermaster::registry::{Provider, Registry};
use quartermaster::solver::{best_version, count_allowed, Outcome, Solver};
use quartermaster::term::{Relation, Term};
use quartermaster::{resolve, Error, Resolved, Version};

fn v(s: &str) -> Version {
    Version::parse(s).unwrap()
}

fn r(s: &str) -> Range {
    range::parse(s).unwrap()
}

fn strings(xs: &[&str]) -> Vec<String> {
    xs.iter().map(|x| x.to_string()).collect()
}

fn err_text<T>(r: quartermaster::Result<T>) -> String {
    match r {
        Ok(_) => panic!("expected an error"),
        Err(e) => e.to_string(),
    }
}

// ---- versions ----

#[test]
fn version_text_round_trips() {
    for s in ["0.0.0", "1.2.3", "10.20.30", "1.0.0-rc.1", "2.0.0-alpha.beta.7"] {
        assert_eq!(v(s).to_string(), s);
        assert_eq!(Version::parse(&v(s).to_string()).unwrap(), v(s));
    }
}

#[test]
fn version_errors_name_the_problem() {
    assert_eq!(err_text(Version::parse("1.0")), "version error: version '1.0' is missing the patch");
    assert_eq!(err_text(Version::parse("1")), "version error: version '1' is missing the minor");
    assert_eq!(err_text(Version::parse("x.0.0")), "version error: version 'x.0.0' has a non-numeric major");
    assert_eq!(err_text(Version::parse("1.0.0.0")), "version error: version '1.0.0.0' has too many parts");
    assert_eq!(err_text(Version::parse("1.0.0-")), "version error: version '1.0.0-' has an empty prerelease");
}

#[test]
fn prerelease_sorts_below_its_release_and_order_is_total() {
    let vs = ["0.9.9", "1.0.0-1", "1.0.0-2", "1.0.0-10", "1.0.0-alpha", "1.0.0-alpha.1", "1.0.0-beta", "1.0.0", "1.0.1"];
    for i in 0..vs.len() {
        for j in 0..vs.len() {
            assert_eq!(v(vs[i]) < v(vs[j]), i < j, "{} vs {}", vs[i], vs[j]);
            assert_eq!(v(vs[i]) == v(vs[j]), i == j);
        }
    }
}

#[test]
fn equal_precedence_is_not_equality() {
    // numeric identifiers compare by value, so these sort alike but differ
    assert!(!(v("1.0.0-01") < v("1.0.0-1")) && !(v("1.0.0-1") < v("1.0.0-01")));
    assert!(v("1.0.0-01") != v("1.0.0-1"));
}

// ---- ranges ----

#[test]
fn range_constructors_hold_what_they_say() {
    let b = Range::between(v("1.0.0"), v("2.0.0"));
    assert!(b.contains(&v("1.0.0")) && b.contains(&v("1.9.9")) && !b.contains(&v("2.0.0")));
    assert!(Range::at_least(v("1.0.0")).contains(&v("1.0.0")));
    assert!(!Range::greater(v("1.0.0")).contains(&v("1.0.0")));
    assert!(Range::greater(v("1.0.0")).contains(&v("1.0.1")));
    assert!(Range::at_most(v("1.0.0")).contains(&v("1.0.0")));
    assert!(!Range::less(v("1.0.0")).contains(&v("1.0.0")));
    assert!(Range::exact(v("1.2.3")).contains(&v("1.2.3")));
    assert!(!Range::exact(v("1.2.3")).contains(&v("1.2.4")));
    assert!(Range::empty().is_empty());
    assert!(Range::any().contains(&v("0.0.0")) && !Range::any().is_empty());
    assert!(Range::any().complement().is_empty());
}

#[test]
fn range_algebra_is_exact_on_samples() {
    let a = r(">=1.0, <5.0 || >=7.0");
    let b = r("^3.0 || <0.5");
    let samples = ["0.1.0", "0.5.0", "1.0.0", "2.9.9", "3.0.0", "3.5.0", "4.0.0", "5.0.0", "6.0.0", "7.0.0", "9.0.0"];
    for s in samples {
        let x = v(s);
        assert_eq!(a.intersect(&b).contains(&x), a.contains(&x) && b.contains(&x), "intersect at {s}");
        assert_eq!(a.union(&b).contains(&x), a.contains(&x) || b.contains(&x), "union at {s}");
        assert_eq!(a.complement().contains(&x), !a.contains(&x), "complement at {s}");
    }
}

#[test]
fn range_text_and_friendly_forms() {
    assert_eq!(r("~1.2").friendly(), "~1.2.0");
    assert_eq!(r("^0.2.3").friendly(), "^0.2.3");
    assert_eq!(r("1.2.3").friendly(), "1.2.3");
    assert_eq!(r(">=1.0, <3.0").friendly(), ">=1.0.0, <3.0.0");
    assert_eq!(r("*").friendly(), ">=0.0.0-0");
    assert_eq!(Range::empty().to_string(), "<nothing>");
    assert_eq!(r("^1.0 || ^3.0").to_string(), ">=1.0.0, <2.0.0 || >=3.0.0, <4.0.0");
    assert_eq!(r(">=2.0").lower_version().unwrap(), &v("2.0.0"));
    assert!(r("<2.0").lower_version().is_none());
}

#[test]
fn constraint_errors() {
    assert_eq!(err_text(range::parse("   ")), "constraint error: empty constraint");
    assert_eq!(err_text(range::parse("^x")), "constraint error: 'x' has a non-numeric major");
    assert_eq!(err_text(range::parse("1.2.3.4")), "constraint error: '1.2.3.4' has too many version parts");
    assert_eq!(err_text(range::parse(">=")), "constraint error: operator '>=' with no version");
    assert_eq!(
        err_text(range::parse("^18446744073709551615")),
        "constraint error: '18446744073709551615' is too large to bound"
    );
}

// ---- terms ----

#[test]
fn term_relations() {
    let t = Term::positive(r("^1.0"));
    assert_eq!(t.relation(&r(">=1.2, <1.5")), Relation::Satisfied);
    assert_eq!(t.relation(&r("^2.0")), Relation::Contradicted);
    assert_eq!(t.relation(&r(">=0.5, <1.5")), Relation::Inconclusive);
    let n = t.negate();
    assert!(!n.positive);
    assert_eq!(n.relation(&r("^2.0")), Relation::Satisfied);
    // a negative term is satisfied by absence: against "anything or absent" it is undecided
    assert_eq!(n.relation_to(&Term::any_state()), Relation::Inconclusive);
    assert_eq!(Term::negative(Range::empty()).relation_to(&Term::any_state()), Relation::Satisfied);
    assert!(Term::any_state().is_universal());
    assert!(!t.is_universal());
    assert!(t.union(&n).is_universal());
    assert!(t.intersect(&n).allowed().is_empty());
    assert!(Term::exact(v("1.2.0")).allowed().contains(&v("1.2.0")));
}

// ---- incompatibilities ----

#[test]
fn incompatibility_terms() {
    let inc = Incompatibility::new(
        vec![("a".to_string(), Term::exact(v("1.0.0"))), ("b".to_string(), Term::negative(r("^1.0")))],
        Cause::Root,
    );
    assert!(inc.term_for("b").is_some());
    assert!(inc.term_for("c").is_none());
    assert_eq!(inc.packages(), strings(&["a", "b"]));
    assert!(!inc.is_terminal("@root"));
    let root_only = Incompatibility::new(vec![("@root".to_string(), Term::exact(v("1.0.0")))], Cause::Root);
    assert!(root_only.is_terminal("@root"));
    assert!(Incompatibility::new(vec![], Cause::Root).is_terminal("@root"));
}

// ---- version selection ----

#[test]
fn best_version_prefers_the_highest_stable() {
    let vs = vec![v("1.0.0"), v("3.0.0-rc.1"), v("2.1.0"), v("2.0.0")];
    assert_eq!(best_version(&vs, &r("*")).unwrap(), v("2.1.0"));
    assert_eq!(best_version(&vs, &r(">=2.5")).unwrap(), v("3.0.0-rc.1"));
    assert!(best_version(&vs, &r("^4.0")).is_none());
    assert_eq!(count_allowed(&vs, &r(">=2.0, <2.5")), 2);
    // a prerelease of 3.0.0 sorts below 3.0.0, so `^2.0` holds it
    assert_eq!(count_allowed(&vs, &r("^2.0")), 3);
}

// ---- registry ----

#[test]
fn registry_answers_versions_and_dependencies() {
    let reg = Registry::parse("# a comment\nfoo 1.0.0\n  bar ^1.0 # trailing\n\nfoo 1.1.0\nbar 1.5.0\n").unwrap();
    assert_eq!(reg.versions("foo"), vec![v("1.0.0"), v("1.1.0")]);
    assert!(reg.versions("baz").is_empty());
    let deps = reg.dependencies("foo", &v("1.0.0")).unwrap();
    assert_eq!(deps.len(), 1);
    assert_eq!(deps[0].0, "bar");
    assert_eq!(deps[0].1.friendly(), "^1.0.0");
    assert!(reg.dependencies("foo", &v("1.1.0")).unwrap().is_empty());
    assert!(reg.dependencies("foo", &v("9.0.0")).is_none());
}

#[test]
fn registry_add_publishes_or_reports() {
    let mut reg = Registry::new();
    reg.add("foo", "1.0.0", &[("bar", ">=1.0, <2.0")]).unwrap();
    assert_eq!(reg.versions("foo"), vec![v("1.0.0")]);
    assert_eq!(err_text(reg.add("foo", "1.x.0", &[])), "version error: version '1.x.0' has a non-numeric minor");
    assert_eq!(err_text(reg.add("foo", "2.0.0", &[("bar", "^y")])), "constraint error: 'y' has a non-numeric major");
    assert_eq!(reg.versions("foo"), vec![v("1.0.0")]);
}

#[test]
fn registry_parse_errors() {
    assert_eq!(err_text(Registry::parse("foo")), "manifest error: line 1: package 'foo' has no version");
    assert_eq!(err_text(Registry::parse("  bar ^1.0")), "manifest error: line 1: dependency before any package");
    assert_eq!(
        err_text(Registry::parse("foo 1.0.0\n  bar")),
        "manifest error: line 2: dependency 'bar' has no version constraint"
    );
    assert_eq!(err_text(Registry::parse("foo 1.0.0\n  bar ^x")), "constraint error: 'x' has a non-numeric major");
    assert_eq!(err_text(Registry::parse("foo x")), "version error: version 'x' has a non-numeric major");
}

// ---- manifest ----

#[test]
fn manifest_parses_its_keys() {
    let m = Manifest::parse("name  myapp\nversion 0.1.0 # comment\n\nrequire web ^1.0\nrequire json >=1.2, <2.0\n").unwrap();
    assert_eq!(m.name, "myapp");
    assert_eq!(m.version, v("0.1.0"));
    assert_eq!(m.deps.len(), 2);
    assert_eq!(m.deps[0].0, "web");
    assert_eq!(m.deps[1].0, "json");
    assert!(m.deps[1].1.contains(&v("1.5.0")) && !m.deps[1].1.contains(&v("2.0.0")));
}

#[test]
fn manifest_errors() {
    assert_eq!(err_text(Manifest::parse("version 1.0.0")), "manifest error: missing 'name'");
    assert_eq!(err_text(Manifest::parse("name x")), "manifest error: missing 'version'");
    assert_eq!(err_text(Manifest::parse("name x\nflavour sweet")), "manifest error: line 2: unknown key 'flavour'");
    assert_eq!(err_text(Manifest::parse("name")), "manifest error: line 1: expected 'key value'");
    assert_eq!(
        err_text(Manifest::parse("name x\nrequire foo")),
        "manifest error: line 2: 'require' needs a name and a constraint"
    );
    assert_eq!(err_text(Manifest::parse("name x\nversion 1")), "version error: version '1' is missing the minor");
}

// ---- lockfile ----

#[test]
fn lockfile_is_sorted_and_round_trips() {
    let lock = Lockfile::new(vec![
        ("zeta".to_string(), v("1.0.0")),
        ("alpha".to_string(), v("2.1.0")),
        ("zeta".to_string(), v("1.2.0")),
    ]);
    let text = lock.to_text();
    assert_eq!(text, "# quartermaster.lock\nalpha 2.1.0\nzeta 1.2.0\n");
    let back = Lockfile::parse(&text).unwrap();
    assert_eq!(back.packages, lock.packages);
    assert_eq!(back.to_text(), text);
}

#[test]
fn lockfile_errors() {
    assert_eq!(err_text(Lockfile::parse("# header\nfoo")), "lockfile error: line 2: expected 'name version'");
    assert_eq!(err_text(Lockfile::parse("foo 1.0")), "version error: version '1.0' is missing the patch");
}

// ---- the resolver ----

#[test]
fn solver_reports_a_terminal_incompatibility() {
    let reg = Registry::parse("foo 1.0.0").unwrap();
    let mut solver = Solver::new(&reg);
    match solver.solve(vec![("foo".to_string(), r("^2.0"))]).unwrap() {
        Outcome::Unsolvable(id) => {
            assert!(solver.incompatibilities()[id].is_terminal("@root"));
        }
        Outcome::Solved(_) => panic!("expected a conflict"),
    }
}

#[test]
fn solver_solution_is_sorted_by_name() {
    let reg = Registry::parse("zz 1.0.0\n  aa ^1.0\naa 1.0.0\n  mm ^1.0\nmm 1.0.0").unwrap();
    let mut solver = Solver::new(&reg);
    match solver.solve(vec![("zz".to_string(), r("*"))]).unwrap() {
        Outcome::Solved(res) => {
            let names: Vec<String> = res.packages.iter().map(|(n, _)| n.clone()).collect();
            assert_eq!(names, strings(&["aa", "mm", "zz"]));
        }
        Outcome::Unsolvable(_) => panic!("expected a solution"),
    }
}

#[test]
fn star_holds_every_version_but_is_not_any() {
    for s in ["0.0.0-alpha", "0.0.0-0", "0.0.0", "1.0.0-rc.1", "99.0.0"] {
        assert!(r("*").contains(&v(s)));
        assert!(r("x").contains(&v(s)));
    }
    assert_ne!(r("*").to_string(), Range::any().to_string());
}

#[test]
fn an_empty_project_range_is_a_conflict() {
    let reg = Registry::parse("foo 1.0.0").unwrap();
    match resolve(&reg, vec![("foo".to_string(), r(">=2.0, <1.0"))]).unwrap() {
        Resolved::Conflict(text) => {
            assert!(text.contains("foo"));
            assert!(text.ends_with("So the project's dependencies cannot be satisfied."));
        }
        Resolved::Solved(p) => panic!("expected a conflict, got {:?}", p),
    }
}

#[test]
fn an_empty_project_range_beside_a_good_one_is_a_conflict() {
    let reg = Registry::parse("foo 1.0.0\nbar 1.0.0").unwrap();
    let deps = vec![("bar".to_string(), r("^1.0")), ("foo".to_string(), r("<0.0.0"))];
    assert!(matches!(resolve(&reg, deps).unwrap(), Resolved::Conflict(_)));
}

#[test]
fn every_project_dependency_is_pinned() {
    let reg = Registry::parse("a 1.0.0\n  b ^1.0\nb 1.0.0\nb 1.2.0\nc 2.0.0\nc 3.0.0-rc.1").unwrap();
    let deps = vec![("c".to_string(), r(">=2.0")), ("a".to_string(), r("*")), ("b".to_string(), r("<1.1"))];
    match resolve(&reg, deps).unwrap() {
        Resolved::Solved(pins) => {
            assert_eq!(
                pins,
                vec![("a".to_string(), v("1.0.0")), ("b".to_string(), v("1.0.0")), ("c".to_string(), v("2.0.0"))]
            );
        }
        Resolved::Conflict(text) => panic!("expected a solution, got {}", text),
    }
}

#[test]
fn conflict_report_text_is_exact() {
    let reg = Registry::parse("foo 1.0.0\nfoo 1.5.0").unwrap();
    match resolve(&reg, vec![("foo".to_string(), r("^2.0"))]).unwrap() {
        Resolved::Conflict(why) => assert_eq!(
            why,
            "1. Because no version of foo matches ^2.0.0 and the project depends on foo ^2.0.0, \
             the project's requirements are contradictory.\n\
             2. So the project's dependencies cannot be satisfied."
        ),
        Resolved::Solved(_) => panic!("expected a conflict"),
    }
}

#[test]
fn report_numbers_every_line() {
    let incs = vec![Incompatibility::new(
        vec![("@root".to_string(), Term::exact(v("1.0.0")))],
        Cause::Root,
    )];
    assert_eq!(report(&incs, 0), "1. So the project's dependencies cannot be satisfied.");
}

#[test]
fn report_follows_premises_stored_after_their_conclusion() {
    let incs = vec![
        Incompatibility::new(vec![("@root".to_string(), Term::exact(v("1.0.0")))], Cause::Derived(1, 2)),
        Incompatibility::new(
            vec![("@root".to_string(), Term::exact(v("1.0.0"))), ("foo".to_string(), Term::negative(r("^1.0")))],
            Cause::Dependency { package: "@root".to_string(), version: "1.0.0".to_string(), dep: "foo".to_string() },
        ),
        Incompatibility::new(
            vec![("foo".to_string(), Term::positive(r("^1.0")))],
            Cause::NoVersions { package: "foo".to_string() },
        ),
    ];
    assert_eq!(
        report(&incs, 0),
        "1. Because the project depends on foo ^1.0.0 and no version of foo matches ^1.0.0, \
         the project's requirements are contradictory.\n2. So the project's dependencies cannot be satisfied."
    );
}

#[test]
fn empty_project_resolves_to_nothing() {
    let reg = Registry::new();
    match resolve(&reg, vec![]).unwrap() {
        Resolved::Solved(pins) => assert!(pins.is_empty()),
        Resolved::Conflict(why) => panic!("unexpected conflict: {why}"),
    }
}

// ---- install ----

#[test]
fn installed_manifest_text() {
    let deps = vec![("bar".to_string(), r("^1.0")), ("baz".to_string(), r(">=2.0, <3.5"))];
    assert_eq!(
        installed_manifest("foo", &v("1.2.0"), &deps),
        "name foo\nversion 1.2.0\nrequire bar ^1.0.0\nrequire baz >=2.0.0, <3.5.0\n"
    );
    let text = installed_manifest("foo", &v("1.2.0"), &deps);
    let m = Manifest::parse(&text).unwrap();
    assert_eq!(m.name, "foo");
    assert_eq!(m.deps.len(), 2);
}

// ---- command line ----

#[test]
fn options_and_positionals() {
    let args = strings(&["app.qm", "--registry", "reg.qm", "-o", "out.lock", "extra"]);
    assert_eq!(take_opt(&args, "--registry", "-r"), Some("reg.qm".to_string()));
    assert_eq!(take_opt(&args, "--out", "-o"), Some("out.lock".to_string()));
    assert_eq!(take_opt(&args, "--to", "-t"), None);
    assert_eq!(take_opt(&strings(&["x", "-r"]), "--registry", "-r"), None);
    assert_eq!(positional(&args), strings(&["app.qm", "extra"]));
    assert_eq!(positional(&strings(&["-r"])), Vec::<String>::new());
}

#[test]
fn error_text_names_its_kind() {
    assert_eq!(Error::Io("disk full".to_string()).to_string(), "io error: disk full");
    assert_eq!(Error::Lock("x".to_string()).to_string(), "lockfile error: x");
}

// ---- the readme's project ----

const README_REGISTRY: &str = "web 1.1.0\n  http ^1.2\n  json ^1.2\nhttp 1.3.0\n  bytes ^1.1\nbytes 1.1.5\njson 1.3.0\n  bytes ^1.0\n";

#[test]
fn readme_project_resolves() {
    let reg = Registry::parse(README_REGISTRY).unwrap();
    let m = Manifest::parse("name    myapp\nversion 0.1.0\nrequire web  ^1.0\nrequire json ^1.2\n").unwrap();
    match resolve(&reg, m.deps.clone()).unwrap() {
        Resolved::Solved(pins) => {
            let got: Vec<(String, String)> = pins.iter().map(|(n, v)| (n.clone(), v.to_string())).collect();
            let want: Vec<(String, String)> = [("bytes", "1.1.5"), ("http", "1.3.0"), ("json", "1.3.0"), ("web", "1.1.0")]
                .iter()
                .map(|(n, v)| (n.to_string(), v.to_string()))
                .collect();
            assert_eq!(got, want);
        }
        Resolved::Conflict(why) => panic!("unexpected conflict: {why}"),
    }
}

#[test]
fn readme_tree_marks_repeats() {
    let reg = Registry::parse(README_REGISTRY).unwrap();
    let pins = vec![
        ("bytes".to_string(), v("1.1.5")),
        ("http".to_string(), v("1.3.0")),
        ("json".to_string(), v("1.3.0")),
        ("web".to_string(), v("1.1.0")),
    ];
    let lines = quartermaster::tree::tree_lines("myapp", &v("0.1.0"), &strings(&["web", "json"]), &pins, &reg);
    assert_eq!(
        lines,
        strings(&[
            "myapp 0.1.0",
            "├─ json 1.3.0",
            "│  └─ bytes 1.1.5",
            "└─ web 1.1.0",
            "   ├─ http 1.3.0",
            "   │  └─ bytes 1.1.5 (*)",
            "   └─ json 1.3.0 (*)",
        ])
    );
}

#[test]
fn tree_shows_unpinned_packages_with_a_question_mark() {
    let reg = Registry::new();
    let lines = quartermaster::tree::tree_lines("p", &v("1.0.0"), &strings(&["b", "a", "b"]), &vec![], &reg);
    assert_eq!(lines, strings(&["p 1.0.0", "├─ a ?", "├─ b ?", "└─ b ? (*)"]));
}

// ---- a provider of the caller's own ----

struct Fixed;

impl Provider for Fixed {
    fn versions(&self, name: &str) -> Vec<Version> {
        match name {
            "a" => vec![Version::new(1, 0, 0), Version::new(1, 1, 0)],
            "b" => vec![Version::new(2, 0, 0)],
            _ => vec![],
        }
    }
    fn dependencies(&self, name: &str, version: &Version) -> Option<Vec<(String, Range)>> {
        match (name, version.to_string().as_str()) {
            ("a", "1.1.0") => Some(vec![("b".to_string(), range::parse("^2.0").unwrap())]),
            ("a", "1.0.0") | ("b", "2.0.0") => Some(vec![]),
            _ => None,
        }
    }
}

#[test]
fn resolves_through_a_trait_object() {
    let p: &dyn Provider = &Fixed;
    match resolve(p, vec![("a".to_string(), r("^1.0"))]).unwrap() {
        Resolved::Solved(pins) => {
            assert_eq!(pins, vec![("a".to_string(), v("1.1.0")), ("b".to_string(), v("2.0.0"))]);
        }
        Resolved::Conflict(why) => panic!("unexpected conflict: {why}"),
    }
}

#[test]
fn first_published_duplicate_answers() {
    let reg = Registry::parse("foo 1.0.0\n  bar ^1.0\nfoo 1.0.0\n").unwrap();
    assert_eq!(reg.versions("foo"), vec![v("1.0.0"), v("1.0.0")]);
    assert_eq!(reg.dependencies("foo", &v("1.0.0")).unwrap().len(), 1);
}

#[test]
fn tilde_that_is_also_a_caret_prints_as_caret() {
    assert_eq!(r("~1.2.3").friendly(), "~1.2.3");
    assert_eq!(r("~0.2.3").friendly(), "^0.2.3");
}
