use hydrasect::graph::{commit_graph, Commit, CommitGraph, GraphError};
use hydrasect::history::read_history;
use hydrasect::oid::Oid;
use hydrasect::search::closest_commits;

fn oid(s: &[u8]) -> Oid {
    Oid::parse(s).unwrap()
}

fn always_eligible(_: &Oid) -> Result<bool, String> {
    Ok(true)
}

fn never_eligible(_: &Oid) -> Result<bool, String> {
    Ok(false)
}

#[test]
fn test_commit_graph() {
    assert_eq!(
        commit_graph(b"AA BB CC\nCC DD\n").unwrap(),
        CommitGraph {
            bad: Some(oid(b"AA")),
            commits: vec![
                (
                    oid(b"AA"),
                    Commit { parents: vec![oid(b"CC")], children: vec![] },
                ),
                (
                    oid(b"CC"),
                    Commit { parents: vec![], children: vec![oid(b"AA")] },
                ),
            ],
        }
    );
}

#[test]
fn test_commit_graph_empty_input() {
    let g = commit_graph(b"").unwrap();
    assert_eq!(g.bad, None);
    assert!(g.commits.is_empty());
}

#[test]
fn test_commit_graph_rejects_empty_line() {
    match commit_graph(b"AA\n\nBB\n").unwrap_err() {
        GraphError::EmptyLine { record } => assert_eq!(record, 1),
        e => panic!("unexpected error: {:?}", e),
    }
}

#[test]
fn test_commit_graph_rejects_bad_field() {
    match commit_graph(b"AA BB\nCC zz\n").unwrap_err() {
        GraphError::BadField { record, cause } => {
            assert_eq!(record, 1);
            assert_eq!(cause.chunk, b"zz".to_vec());
        },
        e => panic!("unexpected error: {:?}", e),
    }
}

#[test]
fn test_commit_graph_symmetry_and_pruning() {
    // DD has no record of its own, so it must not appear as a parent.
    let g = commit_graph(b"AA BB DD\nBB CC\nCC AA\n").unwrap();
    for (k, c) in &g.commits {
        for p in &c.parents {
            let parent = g.commits.iter().find(|(o, _)| o == p).expect("parent is a vertex");
            assert!(parent.1.children.contains(k));
        }
        for ch in &c.children {
            let child = g.commits.iter().find(|(o, _)| o == ch).expect("child is a vertex");
            assert!(child.1.parents.contains(k));
        }
    }
    let aa = g.commits.iter().find(|(o, _)| *o == oid(b"AA")).unwrap();
    assert_eq!(aa.1.parents, vec![oid(b"BB")]);
}

#[test]
fn test_commit_graph_duplicate_key_last_wins() {
    // A later record for the same identifier replaces the earlier one,
    // and the bad tip is still the first record's identifier.
    let g = commit_graph(b"AA BB\nBB\nAA\n").unwrap();
    assert_eq!(g.bad, Some(oid(b"AA")));
    let aa = g.commits.iter().find(|(o, _)| *o == oid(b"AA")).unwrap();
    assert!(aa.1.parents.is_empty());
    let bb = g.commits.iter().find(|(o, _)| *o == oid(b"BB")).unwrap();
    assert!(bb.1.children.is_empty());
}

#[test]
fn test_closest_commits() {
    let graph = b"AA BB\n\
                  BB CC\n\
                  CC DD EE\n\
                  EE FF\n\
                  FF 00";
    let history = read_history(b"AA 0\nFF 0\n00 0\n").unwrap();
    let graph = commit_graph(graph).unwrap();

    let actual = closest_commits(oid(b"CC"), graph, history, always_eligible).unwrap();
    assert_eq!(actual, vec![oid(b"FF")]);
}

#[test]
fn test_closest_commits_skip() {
    let o = oid(b"AA");
    let graph = CommitGraph {
        bad: None,
        commits: vec![(o.clone(), Commit { parents: vec![], children: vec![] })],
    };
    let history = vec![o.clone()];

    assert!(closest_commits(o, graph, history, never_eligible).unwrap().is_empty());
}

#[test]
fn test_closest_commits_excludes_bad() {
    // The bad tip is a target but must never be reported; its parent is.
    let graph = commit_graph(b"AA BB\nBB").unwrap();
    let targets = vec![oid(b"AA"), oid(b"BB")];
    let actual = closest_commits(oid(b"AA"), graph, targets, always_eligible).unwrap();
    assert_eq!(actual, vec![oid(b"BB")]);
}

#[test]
fn test_closest_commits_start_is_match() {
    let graph = commit_graph(b"AA BB\nBB").unwrap();
    let targets = vec![oid(b"BB")];
    let actual = closest_commits(oid(b"BB"), graph, targets, always_eligible).unwrap();
    assert_eq!(actual, vec![oid(b"BB")]);
}

#[test]
fn test_closest_commits_skips_nearer_ineligible() {
    // BB is nearer but ineligible; the search continues outward to CC.
    let graph = commit_graph(b"AA BB\nBB CC\nCC").unwrap();
    let targets = vec![oid(b"BB"), oid(b"CC")];
    let skip_bb = |o: &Oid| -> Result<bool, String> { Ok(*o != Oid::parse(b"BB").unwrap()) };
    let actual = closest_commits(oid(b"AA"), graph, targets, skip_bb).unwrap();
    assert_eq!(actual, vec![oid(b"CC")]);
}

#[test]
fn test_closest_commits_propagates_error() {
    let graph = commit_graph(b"AA BB\nBB").unwrap();
    let targets = vec![oid(b"BB")];
    let fail = |_: &Oid| -> Result<bool, String> { Err("skip check failed".to_string()) };
    let e = closest_commits(oid(b"AA"), graph, targets, fail).unwrap_err();
    assert_eq!(e, "skip check failed");
}

#[test]
fn test_closest_commits_deterministic() {
    let text = b"AA BB\nBB CC\nCC DD EE\nEE FF\nFF 00";
    let history = read_history(b"AA 0\nFF 0\n00 0\n").unwrap();
    let first = closest_commits(
        oid(b"CC"),
        commit_graph(text).unwrap(),
        history.clone(),
        always_eligible,
    )
    .unwrap();
    let second = closest_commits(
        oid(b"CC"),
        commit_graph(text).unwrap(),
        history,
        always_eligible,
    )
    .unwrap();
    assert_eq!(first, second);
}
